//! Decoding from bytes that come in pieces, and encoding into buffers that
//! are handed over one at a time.
use vstd::prelude::*;
use crate::base::Object;
use crate::tables::Table;
use crate::base::ObjectView;
use crate::decoding::{spec_dec_msg, spec_dec_field, spec_skip_field, decode_message};
use crate::wire::{spec_read_tag, spec_agree, lemma_varint_from_len, lemma_varint_from_prefix};
use crate::locality::{lemma_dec_field_prefix, lemma_skip_field_prefix, lemma_dec_field_len};
use crate::encoding::{spec_enc_msg, encode_message};

verus! {

/// Whether the bytes `s` of a message of table `t`, read from the start into
/// `o`, can still be the start of a message: false once a field is met whose
/// tag no message can hold (field number 0, an end-group tag outside a
/// group, wire type 6 or 7), or whose bytes are all there but do not decode.
pub open spec fn spec_stream_ok(pool: Seq<Table>, t: int, s: Seq<u8>, o: ObjectView, fuel: nat) -> bool
    decreases s.len(),
{
    if s.len() == 0 {
        true
    } else {
        match spec_read_tag(s) {
            None => true,
            Some((tag, n)) => {
                let f = tag >> 3u64;
                let w = tag & 7;
                if f == 0 || w == 4 || w >= 6 || !(1 <= n <= s.len()) {
                    false
                } else {
                    match spec_skip_field(s.skip(n as int), w, fuel, f) {
                        None => true,
                        Some(m0) => if n + m0 > s.len() {
                            true
                        } else {
                            match spec_dec_field(pool, t, s.skip(n as int), o, fuel, f, w) {
                                None => false,
                                Some((o2, m)) => if n + m <= s.len() {
                                    spec_stream_ok(pool, t, s.skip((n + m) as int), o2, fuel)
                                } else {
                                    true
                                },
                            }
                        },
                    }
                }
            },
        }
    }
}

/// `s` holds no complete field at its start: it is empty, or its first
/// field's tag or value is still cut off.
pub open spec fn spec_unfinished(s: Seq<u8>, fuel: nat) -> bool {
    s.len() == 0 || match spec_read_tag(s) {
        None => true,
        Some((tag, n)) => match spec_skip_field(s.skip(n as int), tag & 7, fuel, tag >> 3u64) {
            None => true,
            Some(m) => n + m > s.len(),
        },
    }
}

proof fn lemma_agree_append(s: Seq<u8>, c: Seq<u8>)
    ensures
        spec_agree(s, s + c, s.len()),
{
}

/// A complete field at the start of `p` that decodes on its own is decoded
/// alike whatever follows `p`.
proof fn lemma_commit(pool: Seq<Table>, t: int, p: Seq<u8>, c: Seq<u8>, o: ObjectView, fuel: nat)
    requires
        spec_read_tag(p) matches Some((tag, n)) && {
            let f = tag >> 3u64;
            let w = tag & 7;
            &&& f != 0 && w != 4 && w < 6 && 1 <= n <= p.len()
            &&& spec_skip_field(p.skip(n as int), w, fuel, f) matches Some(m0) && n + m0 <= p.len()
            &&& spec_dec_field(pool, t, p.skip(n as int), o, fuel, f, w) is Some
        },
    ensures
        ({
            let (tag, n) = spec_read_tag(p)->Some_0;
            let (o2, m) = spec_dec_field(pool, t, p.skip(n as int), o, fuel, tag >> 3u64, tag & 7)->Some_0;
            &&& m == spec_skip_field(p.skip(n as int), tag & 7, fuel, tag >> 3u64)->Some_0
            &&& spec_dec_msg(pool, t, p + c, o, fuel) == spec_dec_msg(pool, t, p.skip((n + m) as int) + c, o2, fuel)
            &&& spec_stream_ok(pool, t, p + c, o, fuel) == spec_stream_ok(pool, t, p.skip((n + m) as int) + c, o2, fuel)
        }),
{
    let (tag, n) = spec_read_tag(p)->Some_0;
    let f = tag >> 3u64;
    let w = tag & 7;
    let q = p + c;
    lemma_agree_append(p, c);
    lemma_varint_from_len(p, 0, 5, 15);
    lemma_varint_from_prefix(p, q, 0, 5, 15, p.len());
    let (o2, m) = spec_dec_field(pool, t, p.skip(n as int), o, fuel, f, w)->Some_0;
    lemma_dec_field_len(pool, t, p.skip(n as int), o, fuel, f, w);
    assert(q.skip(n as int) =~= p.skip(n as int) + c);
    lemma_agree_append(p.skip(n as int), c);
    lemma_dec_field_prefix(pool, t, p.skip(n as int), q.skip(n as int), o, fuel, f, w, (p.len() - n) as nat);
    lemma_skip_field_prefix(p.skip(n as int), q.skip(n as int), w, fuel, f, (p.len() - n) as nat);
    assert(q.skip((n + m) as int) =~= p.skip((n + m) as int) + c);
    assert(q.len() > 0);
}

/// A field at the start of `p` whose tag no message can hold, or whose bytes
/// are all there but do not decode, fails whatever follows `p`.
proof fn lemma_refute(pool: Seq<Table>, t: int, p: Seq<u8>, c: Seq<u8>, o: ObjectView, fuel: nat)
    requires
        spec_read_tag(p) matches Some((tag, n)) && {
            let f = tag >> 3u64;
            let w = tag & 7;
            ||| f == 0 || w == 4 || w >= 6
            ||| (spec_skip_field(p.skip(n as int), w, fuel, f) matches Some(m0) && n + m0 <= p.len()
                && spec_dec_field(pool, t, p.skip(n as int), o, fuel, f, w) is None)
        },
    ensures
        spec_dec_msg(pool, t, p + c, o, fuel) is None,
        !spec_stream_ok(pool, t, p + c, o, fuel),
{
    let (tag, n) = spec_read_tag(p)->Some_0;
    let f = tag >> 3u64;
    let w = tag & 7;
    let q = p + c;
    lemma_agree_append(p, c);
    lemma_varint_from_len(p, 0, 5, 15);
    lemma_varint_from_prefix(p, q, 0, 5, 15, p.len());
    assert(q.len() > 0);
    if f == 0 || w == 4 {
    } else if w >= 6 {
        assert(spec_dec_field(pool, t, q.skip(n as int), o, fuel, f, w) is None);
    } else {
        let m0 = spec_skip_field(p.skip(n as int), w, fuel, f)->Some_0;
        assert(q.skip(n as int) =~= p.skip(n as int) + c);
        lemma_agree_append(p.skip(n as int), c);
        lemma_skip_field_prefix(p.skip(n as int), q.skip(n as int), w, fuel, f, (p.len() - n) as nat);
        if spec_dec_field(pool, t, q.skip(n as int), o, fuel, f, w) is Some {
            lemma_dec_field_len(pool, t, q.skip(n as int), o, fuel, f, w);
            let m = spec_dec_field(pool, t, q.skip(n as int), o, fuel, f, w)->Some_0.1;
            assert(m == m0);
            assert(spec_agree(q.skip(n as int), p.skip(n as int), (p.len() - n) as nat));
            lemma_dec_field_prefix(pool, t, q.skip(n as int), p.skip(n as int), o, fuel, f, w, (p.len() - n) as nat);
        }
    }
}

/// The bytes of `v` from `pos` on.
fn tail(v: &Vec<u8>, pos: usize) -> (r: Vec<u8>)
    requires
        pos <= v@.len(),
    ensures
        r@ == v@.skip(pos as int),
{
    let mut r: Vec<u8> = Vec::new();
    let mut i: usize = pos;
    while i < v.len()
        invariant
            pos <= i <= v@.len(),
            r@ == v@.subrange(pos as int, i as int),
        decreases v@.len() - i,
    {
        r.push(v[i]);
        i += 1;
        assert(r@ =~= v@.subrange(pos as int, i as int));
    }
    assert(r@ =~= v@.skip(pos as int));
    r
}

/// What decoding the field at the start of the bytes kept did.
enum Step {
    /// Its bytes are not all there yet.
    Wait,
    /// It fails, whatever follows.
    Refuted,
    /// It was decoded; the next field starts at this position.
    Advanced(usize),
}

/// Decodes the field that starts at `pos` of `pending` into `obj` where all
/// of its bytes are there.
fn decode_next(tables: &[Table], t: usize, pending: &Vec<u8>, pos: usize, obj: &mut Object, fuel: usize) -> (r: Step)
    requires
        t < tables@.len(),
        pos <= pending@.len(),
    ensures
        ({
            let p = pending@.skip(pos as int);
            match r {
                Step::Wait => {
                    &&& final(obj)@ == old(obj)@
                    &&& spec_unfinished(p, fuel as nat)
                    &&& spec_stream_ok(tables@, t as int, p, old(obj)@, fuel as nat)
                },
                Step::Refuted => forall|c: Seq<u8>| {
                    &&& #[trigger] spec_dec_msg(tables@, t as int, p + c, old(obj)@, fuel as nat) is None
                    &&& !spec_stream_ok(tables@, t as int, p + c, old(obj)@, fuel as nat)
                },
                Step::Advanced(next) => {
                    &&& pos < next <= pending@.len()
                    &&& forall|c: Seq<u8>| {
                        &&& #[trigger] spec_dec_msg(tables@, t as int, p + c, old(obj)@, fuel as nat)
                            == spec_dec_msg(tables@, t as int, pending@.skip(next as int) + c, final(obj)@, fuel as nat)
                        &&& spec_stream_ok(tables@, t as int, p + c, old(obj)@, fuel as nat)
                            == spec_stream_ok(tables@, t as int, pending@.skip(next as int) + c, final(obj)@, fuel as nat)
                    }
                },
            }
        }),
{
    let ghost pool = tables@;
    let ghost ti = t as int;
    let ghost p = pending@.skip(pos as int);
    let ghost o_before = obj@;
    if pos == pending.len() {
        return Step::Wait;
    }
    let tagged = crate::wire::read_tag(pending.as_slice(), pos);
    let (tag, after_tag) = match tagged {
        None => {
            return Step::Wait;
        },
        Some(x) => x,
    };
    let ghost n = (after_tag - pos) as nat;
    let f = (tag >> 3) as u64;
    let w = (tag & 7) as u64;
    proof {
        let (tv, tn) = spec_read_tag(p)->Some_0;
        assert(tv as u32 == tag);
        lemma_varint_from_len(p, 0, 5, 15);
        assert(tv <= u32::MAX);
        assert(tv >> 3u64 == f) by (bit_vector)
            requires tv <= u32::MAX, tag == tv as u32, f == (tag >> 3u32) as u64;
        assert(tv & 7 == w) by (bit_vector)
            requires tv <= u32::MAX, tag == tv as u32, w == (tag & 7u32) as u64;
    }
    if f == 0 || w == 4 || w >= 6 {
        proof {
            assert forall|c: Seq<u8>| {
                &&& #[trigger] spec_dec_msg(pool, ti, p + c, o_before, fuel as nat) is None
                &&& !spec_stream_ok(pool, ti, p + c, o_before, fuel as nat)
            } by {
                lemma_refute(pool, ti, p, c, o_before, fuel as nat);
            }
        }
        return Step::Refuted;
    }
    let skipped = crate::decoding::skip_field(pending.as_slice(), after_tag, w, fuel, f);
    proof {
        assert(pending@.skip(after_tag as int) =~= p.skip(n as int));
    }
    match skipped {
        None => {
            return Step::Wait;
        },
        Some(_) => {},
    }
    let decoded = crate::decoding::decode_field(tables, t, pending.as_slice(), after_tag, obj, fuel, f, w);
    match decoded {
        None => {
            proof {
                assert forall|c: Seq<u8>| {
                    &&& #[trigger] spec_dec_msg(pool, ti, p + c, o_before, fuel as nat) is None
                    &&& !spec_stream_ok(pool, ti, p + c, o_before, fuel as nat)
                } by {
                    lemma_refute(pool, ti, p, c, o_before, fuel as nat);
                }
            }
            Step::Refuted
        },
        Some(next) => {
            proof {
                let m = (next - after_tag) as nat;
                assert(pending@.skip(next as int) =~= p.skip((n + m) as int));
                assert forall|c: Seq<u8>| {
                    &&& #[trigger] spec_dec_msg(pool, ti, p + c, o_before, fuel as nat)
                        == spec_dec_msg(pool, ti, pending@.skip(next as int) + c, obj@, fuel as nat)
                    &&& spec_stream_ok(pool, ti, p + c, o_before, fuel as nat)
                        == spec_stream_ok(pool, ti, pending@.skip(next as int) + c, obj@, fuel as nat)
                } by {
                    lemma_commit(pool, ti, p, c, o_before, fuel as nat);
                }
            }
            Step::Advanced(next)
        },
    }
}

/// A decoder that takes a message's bytes piece by piece and decodes each
/// field into the object as soon as all of its bytes are there; it keeps
/// only the bytes of the field that is not complete yet. A tag that no
/// message can hold, or a complete field that does not decode, is refused
/// at once.
pub struct ResumeableDecode {
    pending: Vec<u8>,
    received: Ghost<Seq<u8>>,
    start: Ghost<ObjectView>,
    total: usize,
    limit: usize,
    stack_depth: usize,
    over: bool,
    failed: bool,
}

impl View for ResumeableDecode {
    type V = Seq<u8>;

    /// The bytes received so far.
    closed spec fn view(&self) -> Seq<u8> {
        self.received@
    }
}

impl ResumeableDecode {
    pub closed spec fn spec_limit(&self) -> usize {
        self.limit
    }

    pub closed spec fn spec_stack_depth(&self) -> usize {
        self.stack_depth
    }

    /// The object the message is decoded into, as it was at the start.
    pub closed spec fn spec_start(&self) -> ObjectView {
        self.start@
    }

    /// The bytes kept: those of the field that is not complete yet.
    pub closed spec fn spec_pending(&self) -> Seq<u8> {
        self.pending@
    }

    /// The decoder belongs with object `o` of table `t`: `o` holds the
    /// start object with the complete fields received so far decoded into
    /// it, and the bytes kept are the rest of what was received; or the
    /// bytes received already fail, whatever follows them.
    pub closed spec fn wf(&self, pool: Seq<Table>, t: int, o: ObjectView) -> bool {
        &&& self.over <==> self.received@.len() > self.limit
        &&& !self.over ==> self.total == self.received@.len()
        &&& !self.failed ==> {
            &&& self.pending@.len() <= self.received@.len()
            &&& self.received@.skip(self.received@.len() - self.pending@.len()) == self.pending@
            &&& forall|c: Seq<u8>| #[trigger] spec_dec_msg(pool, t, self.received@ + c, self.start@, self.stack_depth as nat)
                == spec_dec_msg(pool, t, self.pending@ + c, o, self.stack_depth as nat)
            &&& forall|c: Seq<u8>| #[trigger] spec_stream_ok(pool, t, self.received@ + c, self.start@, self.stack_depth as nat)
                == spec_stream_ok(pool, t, self.pending@ + c, o, self.stack_depth as nat)
        }
        &&& self.failed ==> {
            &&& forall|c: Seq<u8>| #[trigger] spec_dec_msg(pool, t, self.received@ + c, self.start@, self.stack_depth as nat) is None
            &&& forall|c: Seq<u8>| !#[trigger] spec_stream_ok(pool, t, self.received@ + c, self.start@, self.stack_depth as nat)
        }
    }

    /// A decoder for a message decoded into `obj`, of at most `limit` bytes
    /// with at most `stack_depth` levels of nested messages.
    pub fn new(obj: &Object, limit: usize, stack_depth: usize) -> (r: Self)
        ensures
            r@ == Seq::<u8>::empty(),
            r.spec_start() == obj@,
            r.spec_pending() == Seq::<u8>::empty(),
            r.spec_limit() == limit,
            r.spec_stack_depth() == stack_depth,
            forall|pool: Seq<Table>, t: int| #[trigger] r.wf(pool, t, obj@),
    {
        let r = ResumeableDecode {
            pending: Vec::new(),
            received: Ghost(Seq::empty()),
            start: Ghost(obj@),
            total: 0,
            limit,
            stack_depth,
            over: false,
            failed: false,
        };
        assert forall|pool: Seq<Table>, t: int| #[trigger] r.wf(pool, t, obj@) by {
            assert forall|c: Seq<u8>| #[trigger] spec_dec_msg(pool, t, r.received@ + c, r.start@, r.stack_depth as nat)
                == spec_dec_msg(pool, t, r.pending@ + c, obj@, r.stack_depth as nat) by {
                assert(r.received@ + c =~= r.pending@ + c);
            }
            assert forall|c: Seq<u8>| #[trigger] spec_stream_ok(pool, t, r.received@ + c, r.start@, r.stack_depth as nat)
                == spec_stream_ok(pool, t, r.pending@ + c, obj@, r.stack_depth as nat) by {
                assert(r.received@ + c =~= r.pending@ + c);
            }
            assert(r.received@.skip(0) =~= r.pending@);
        }
        r
    }

    /// Takes the next piece of the message and decodes every field that is
    /// now complete into `obj`. False where the bytes received can no
    /// longer start a message (see `spec_stream_ok`) or grow past the limit.
    #[verifier::loop_isolation(false)]
    pub fn resume(&mut self, tables: &[Table], t: usize, obj: &mut Object, buf: &[u8]) -> (r: bool)
        requires
            t < tables@.len(),
            old(self).wf(tables@, t as int, old(obj)@),
        ensures
            final(self)@ == old(self)@ + buf@,
            final(self).spec_start() == old(self).spec_start(),
            final(self).spec_limit() == old(self).spec_limit(),
            final(self).spec_stack_depth() == old(self).spec_stack_depth(),
            final(self).wf(tables@, t as int, final(obj)@),
            r == (final(self)@.len() <= final(self).spec_limit() && spec_stream_ok(
                tables@,
                t as int,
                final(self)@,
                final(self).spec_start(),
                final(self).spec_stack_depth() as nat,
            )),
            r ==> spec_unfinished(final(self).spec_pending(), final(self).spec_stack_depth() as nat),
            !r && final(self)@.len() <= final(self).spec_limit() ==> forall|c: Seq<u8>| #[trigger] spec_dec_msg(
                tables@,
                t as int,
                final(self)@ + c,
                final(self).spec_start(),
                final(self).spec_stack_depth() as nat,
            ) is None,
            r ==> final(self).spec_pending().len() <= final(self)@.len()
                && final(self)@.skip(final(self)@.len() - final(self).spec_pending().len()) == final(self).spec_pending(),
    {
        let ghost pool = tables@;
        let ghost ti = t as int;
        let ghost fuel = self.stack_depth as nat;
        let ghost old_received = self.received@;
        let ghost new_received = old_received + buf@;
        proof {
            self.received@ = new_received;
        }
        if !self.over {
            if buf.len() > self.limit || self.total > self.limit - buf.len() {
                self.over = true;
            } else {
                self.total = self.total + buf.len();
            }
        }
        if self.failed {
            proof {
                assert forall|c: Seq<u8>| #[trigger] spec_dec_msg(pool, ti, self.received@ + c, self.start@, fuel) is None by {
                    assert(self.received@ + c =~= old_received + (buf@ + c));
                }
                assert forall|c: Seq<u8>| !#[trigger] spec_stream_ok(pool, ti, self.received@ + c, self.start@, fuel) by {
                    assert(self.received@ + c =~= old_received + (buf@ + c));
                }
                assert(self.received@ + Seq::<u8>::empty() =~= self.received@);
            }
            return false;
        }
        let mut pending: Vec<u8> = Vec::new();
        std::mem::swap(&mut pending, &mut self.pending);
        let ghost old_pending = pending@;
        let mut i: usize = 0;
        while i < buf.len()
            invariant
                i <= buf@.len(),
                pending@ == old_pending + buf@.take(i as int),
            decreases buf@.len() - i,
        {
            pending.push(buf[i]);
            assert(pending@ =~= old_pending + buf@.take(i + 1));
            i += 1;
        }
        assert(buf@.take(i as int) =~= buf@);
        proof {
            assert forall|c: Seq<u8>| #[trigger] spec_dec_msg(pool, ti, self.received@ + c, self.start@, fuel)
                == spec_dec_msg(pool, ti, pending@ + c, obj@, fuel) by {
                assert(self.received@ + c =~= old_received + (buf@ + c));
                assert(pending@ + c =~= old_pending + (buf@ + c));
            }
            assert forall|c: Seq<u8>| #[trigger] spec_stream_ok(pool, ti, self.received@ + c, self.start@, fuel)
                == spec_stream_ok(pool, ti, pending@ + c, obj@, fuel) by {
                assert(self.received@ + c =~= old_received + (buf@ + c));
                assert(pending@ + c =~= old_pending + (buf@ + c));
            }
            assert(self.received@.skip(self.received@.len() - pending@.len()) =~= pending@);
        }
        let fuel_exec = self.stack_depth;
        let mut pos: usize = 0;
        assert(pending@.skip(0) =~= pending@);
        let mut refuted = false;
        loop
            invariant
                t < tables@.len(),
                pool == tables@,
                ti == t as int,
                fuel == fuel_exec as nat,
                fuel_exec == self.stack_depth,
                !self.failed,
                self.received@ == new_received,
                pos <= pending@.len(),
                pending@.len() <= self.received@.len(),
                self.received@.skip(self.received@.len() - pending@.len()) == pending@,
                forall|c: Seq<u8>| #[trigger] spec_dec_msg(pool, ti, self.received@ + c, self.start@, fuel)
                    == spec_dec_msg(pool, ti, pending@.skip(pos as int) + c, obj@, fuel),
                forall|c: Seq<u8>| #[trigger] spec_stream_ok(pool, ti, self.received@ + c, self.start@, fuel)
                    == spec_stream_ok(pool, ti, pending@.skip(pos as int) + c, obj@, fuel),
                !refuted,
            decreases pending@.len() - pos,
        {
            let ghost o_before = obj@;
            let ghost p = pending@.skip(pos as int);
            match decode_next(tables, t, &pending, pos, obj, fuel_exec) {
                Step::Wait => {
                    break;
                },
                Step::Refuted => {
                    proof {
                        assert forall|c: Seq<u8>| #[trigger] spec_dec_msg(pool, ti, self.received@ + c, self.start@, fuel) is None by {
                            assert(spec_dec_msg(pool, ti, p + c, o_before, fuel) is None);
                        }
                        assert forall|c: Seq<u8>| !#[trigger] spec_stream_ok(pool, ti, self.received@ + c, self.start@, fuel) by {
                            assert(spec_dec_msg(pool, ti, p + c, o_before, fuel) is None);
                            assert(!spec_stream_ok(pool, ti, p + c, o_before, fuel));
                        }
                    }
                    refuted = true;
                    break;
                },
                Step::Advanced(next) => {
                    proof {
                        assert forall|c: Seq<u8>| #[trigger] spec_dec_msg(pool, ti, self.received@ + c, self.start@, fuel)
                            == spec_dec_msg(pool, ti, pending@.skip(next as int) + c, obj@, fuel) by {
                            assert(spec_dec_msg(pool, ti, p + c, o_before, fuel)
                                == spec_dec_msg(pool, ti, pending@.skip(next as int) + c, obj@, fuel));
                        }
                        assert forall|c: Seq<u8>| #[trigger] spec_stream_ok(pool, ti, self.received@ + c, self.start@, fuel)
                            == spec_stream_ok(pool, ti, pending@.skip(next as int) + c, obj@, fuel) by {
                            assert(spec_dec_msg(pool, ti, p + c, o_before, fuel)
                                == spec_dec_msg(pool, ti, pending@.skip(next as int) + c, obj@, fuel));
                            assert(spec_stream_ok(pool, ti, p + c, o_before, fuel)
                                == spec_stream_ok(pool, ti, pending@.skip(next as int) + c, obj@, fuel));
                        }
                    }
                    pos = next;
                },
            }
        }
        if refuted {
            self.failed = true;
            proof {
                assert(self.received@ + Seq::<u8>::empty() =~= self.received@);
            }
            return false;
        }
        let rest = tail(&pending, pos);
        proof {
            assert(self.received@.skip(self.received@.len() - rest@.len()) =~= rest@);
            assert(self.received@ + Seq::<u8>::empty() =~= self.received@);
            assert(rest@ + Seq::<u8>::empty() =~= rest@);
        }
        self.pending = rest;
        !self.over
    }

    /// Decodes the bytes kept into `obj`, which completes the message;
    /// whether the whole message decoded.
    pub fn finish(self, tables: &[Table], t: usize, obj: &mut Object) -> (r: bool)
        requires
            t < tables@.len(),
            self.wf(tables@, t as int, old(obj)@),
        ensures
            r == (self@.len() <= self.spec_limit() && spec_dec_msg(
                tables@,
                t as int,
                self@,
                self.spec_start(),
                self.spec_stack_depth() as nat,
            ) is Some),
            r ==> final(obj)@ == spec_dec_msg(tables@, t as int, self@, self.spec_start(), self.spec_stack_depth() as nat)->Some_0,
    {
        proof {
            assert(self.received@ + Seq::<u8>::empty() =~= self.received@);
            assert(self.pending@ + Seq::<u8>::empty() =~= self.pending@);
        }
        if self.over || self.failed {
            return false;
        }
        decode_message(tables, t, self.pending.as_slice(), obj, self.stack_depth)
    }
}

/// Decodes all of `buf` into `obj`, an object of table `t`, with at most
/// `stack_depth` levels of nested messages; whether that succeeded.
pub fn decode_flat(tables: &[Table], t: usize, obj: &mut Object, stack_depth: usize, buf: &[u8]) -> (r: bool)
    requires
        t < tables@.len(),
    ensures
        r == spec_dec_msg(tables@, t as int, buf@, old(obj)@, stack_depth as nat) is Some,
        r ==> final(obj)@ == spec_dec_msg(tables@, t as int, buf@, old(obj)@, stack_depth as nat)->Some_0,
{
    let mut decoder = ResumeableDecode::new(obj, usize::MAX, stack_depth);
    assert(decoder.wf(tables@, t as int, obj@));
    let _ = decoder.resume(tables, t, obj, buf);
    assert(decoder@ =~= buf@);
    assert(buf@.len() == buf.len());
    decoder.finish(tables, t, obj)
}

/// What one step of a resumable encoding did.
pub enum ResumeResult {
    /// The encoding is complete: its start is at this index of the buffer and
    /// it runs to the buffer's end.
    Done(usize),
    /// The buffer is full; the encoding goes on in another one.
    NeedsMoreBuffer,
}

/// An encoder that writes a message's encoding back to front into the
/// buffers it is handed: each buffer but the last is filled completely with
/// the part that comes right before the previous one.
pub struct ResumeableEncode {
    encoding: Vec<u8>,
    ok: bool,
    remaining: usize,
}

impl ResumeableEncode {
    /// The whole encoding, where the message encodes.
    pub closed spec fn spec_encoding(&self) -> Option<Seq<u8>> {
        if self.ok {
            Some(self.encoding@)
        } else {
            None
        }
    }

    /// How many bytes at the front of the encoding are not written yet.
    pub closed spec fn spec_remaining(&self) -> nat {
        self.remaining as nat
    }

    pub closed spec fn wf(&self) -> bool {
        self.remaining <= self.encoding@.len()
    }

    /// An encoder of `obj`, an object of table `t`, with at most
    /// `stack_depth` levels of nested messages.
    pub fn new(tables: &[Table], t: usize, obj: &Object, stack_depth: usize) -> (r: Self)
        requires
            t < tables@.len(),
        ensures
            r.wf(),
            r.spec_encoding() == spec_enc_msg(tables@, t as int, obj@, stack_depth as nat),
            r.spec_encoding() matches Some(b) ==> r.spec_remaining() == b.len(),
    {
        let mut encoding: Vec<u8> = Vec::new();
        let ok = encode_message(tables, t, obj, stack_depth, &mut encoding);
        assert(ok ==> encoding@ =~= Seq::<u8>::empty() + spec_enc_msg(tables@, t as int, obj@, stack_depth as nat)->Some_0);
        let remaining = encoding.len();
        ResumeableEncode { encoding, ok, remaining }
    }

    /// Writes what fits of the rest of the encoding to the end of `buffer`:
    /// `None` where the message does not encode (nesting too deep).
    pub fn resume_encode(&mut self, buffer: &mut [u8]) -> (r: Option<ResumeResult>)
        requires
            old(self).wf(),
        ensures
            final(self).wf(),
            final(self).spec_encoding() == old(self).spec_encoding(),
            final(buffer)@.len() == old(buffer)@.len(),
            match old(self).spec_encoding() {
                None => r is None && final(buffer)@ == old(buffer)@ && final(self).spec_remaining() == old(self).spec_remaining(),
                Some(b) => if old(self).spec_remaining() <= old(buffer)@.len() {
                    let start = old(buffer)@.len() - old(self).spec_remaining();
                    &&& r == Some(ResumeResult::Done(start as usize))
                    &&& final(buffer)@.subrange(start, old(buffer)@.len() as int) == b.subrange(0, old(self).spec_remaining() as int)
                    &&& final(buffer)@.subrange(0, start) == old(buffer)@.subrange(0, start)
                    &&& final(self).spec_remaining() == 0
                } else {
                    &&& r == Some(ResumeResult::NeedsMoreBuffer)
                    &&& final(buffer)@ == b.subrange(old(self).spec_remaining() - old(buffer)@.len(), old(self).spec_remaining() as int)
                    &&& final(self).spec_remaining() == old(self).spec_remaining() - old(buffer)@.len()
                },
            },
    {
        if !self.ok {
            return None;
        }
        let len = buffer.len();
        if self.remaining <= len {
            let start = len - self.remaining;
            let mut i: usize = 0;
            while i < self.remaining
                invariant
                    i <= self.remaining <= self.encoding@.len(),
                    start + self.remaining == len == buffer@.len(),
                    buffer@.len() == old(buffer)@.len(),
                    buffer@.subrange(0, start as int) == old(buffer)@.subrange(0, start as int),
                    forall|j: int| 0 <= j < i ==> #[trigger] buffer@[start + j] == self.encoding@[j],
                decreases self.remaining - i,
            {
                buffer[start + i] = self.encoding[i];
                proof {
                    assert(buffer@.subrange(0, start as int) =~= old(buffer)@.subrange(0, start as int));
                }
                i += 1;
            }
            proof {
                assert forall|k: int| 0 <= k < self.remaining implies #[trigger] buffer@.subrange(start as int, len as int)[k] == self.encoding@.subrange(0, self.remaining as int)[k] by {
                    assert(buffer@[start + k] == self.encoding@[k]);
                }
                assert(buffer@.subrange(start as int, len as int) =~= self.encoding@.subrange(0, self.remaining as int));
            }
            self.remaining = 0;
            Some(ResumeResult::Done(start))
        } else {
            let from = self.remaining - len;
            let mut i: usize = 0;
            while i < len
                invariant
                    i <= len == buffer@.len(),
                    from + len == self.remaining <= self.encoding@.len(),
                    buffer@.len() == old(buffer)@.len(),
                    forall|j: int| 0 <= j < i ==> #[trigger] buffer@[j] == self.encoding@[from + j],
                decreases len - i,
            {
                buffer[i] = self.encoding[from + i];
                i += 1;
            }
            proof {
                assert(buffer@ =~= self.encoding@.subrange(from as int, self.remaining as int));
            }
            self.remaining = from;
            Some(ResumeResult::NeedsMoreBuffer)
        }
    }
}

/// Why a message could not be encoded.
#[derive(Clone, Copy, PartialEq, Eq, Debug, Structural)]
pub enum EncodeError {
    /// Messages nest deeper than the stack depth.
    TooDeep,
    /// The buffer cannot hold the encoding.
    BufferTooSmall,
}

/// Encodes `obj`, an object of table `t`, to the end of `buffer`; the
/// index where the encoding starts.
pub fn encode_flat(tables: &[Table], t: usize, obj: &Object, stack_depth: usize, buffer: &mut [u8]) -> (r: Result<usize, EncodeError>)
    requires
        t < tables@.len(),
    ensures
        final(buffer)@.len() == old(buffer)@.len(),
        match spec_enc_msg(tables@, t as int, obj@, stack_depth as nat) {
            None => r == Err::<usize, EncodeError>(EncodeError::TooDeep),
            Some(b) => if b.len() <= old(buffer)@.len() {
                &&& r == Ok::<usize, EncodeError>((old(buffer)@.len() - b.len()) as usize)
                &&& final(buffer)@.subrange(old(buffer)@.len() - b.len(), old(buffer)@.len() as int) == b
            } else {
                r == Err::<usize, EncodeError>(EncodeError::BufferTooSmall)
            },
        },
{
    let mut enc = ResumeableEncode::new(tables, t, obj, stack_depth);
    match enc.resume_encode(buffer) {
        None => Err(EncodeError::TooDeep),
        Some(ResumeResult::Done(start)) => {
            proof {
                let b = spec_enc_msg(tables@, t as int, obj@, stack_depth as nat)->Some_0;
                assert(b.subrange(0, b.len() as int) =~= b);
            }
            Ok(start)
        },
        Some(ResumeResult::NeedsMoreBuffer) => Err(EncodeError::BufferTooSmall),
    }
}

/// The buffers of a stack, the last pushed first.
pub open spec fn spec_stacked(s: Seq<Vec<u8>>) -> Seq<u8>
    decreases s.len(),
{
    if s.len() == 0 {
        Seq::empty()
    } else {
        s.last()@ + spec_stacked(s.drop_last())
    }
}

/// Encodes `obj`, an object of table `t`, into a new vector, through buffers
/// that start at 1024 bytes and double up to 2 MiB.
pub fn encode_vec(tables: &[Table], t: usize, obj: &Object, stack_depth: usize) -> (r: Result<Vec<u8>, EncodeError>)
    requires
        t < tables@.len(),
    ensures
        match spec_enc_msg(tables@, t as int, obj@, stack_depth as nat) {
            None => r == Err::<Vec<u8>, EncodeError>(EncodeError::TooDeep),
            Some(b) => r matches Ok(v) && v@ == b,
        },
{
    let mut buffer: Vec<u8> = vec![0u8; 1024];
    let mut stack: Vec<Vec<u8>> = Vec::new();
    let mut enc = ResumeableEncode::new(tables, t, obj, stack_depth);
    let ghost whole = spec_enc_msg(tables@, t as int, obj@, stack_depth as nat);
    let mut start: usize = 0;
    loop
        invariant_except_break
            whole matches Some(b) ==> b.subrange(enc.spec_remaining() as int, b.len() as int) == spec_stacked(stack@),
            whole matches Some(b) ==> enc.spec_remaining() <= b.len(),
        invariant
            enc.wf(),
            enc.spec_encoding() == whole,
            whole == spec_enc_msg(tables@, t as int, obj@, stack_depth as nat),
            buffer@.len() >= 1024,
            buffer@.len() <= 2 * 1024 * 1024,
        ensures
            whole is Some,
            whole matches Some(b) ==> start <= buffer@.len() && buffer@.subrange(start as int, buffer@.len() as int) + spec_stacked(stack@) == b,
        decreases enc.spec_remaining(),
    {
        let ghost rem0 = enc.spec_remaining();
        match enc.resume_encode(buffer.as_mut_slice()) {
            None => {
                assert(whole is None);
                return Err(EncodeError::TooDeep);
            },
            Some(ResumeResult::Done(s)) => {
                start = s;
                proof {
                    let b = whole->Some_0;
                    assert(b =~= b.subrange(0, rem0 as int) + b.subrange(rem0 as int, b.len() as int));
                }
                break;
            },
            Some(ResumeResult::NeedsMoreBuffer) => {
                let len = if buffer.len() < 1024 * 1024 {
                    buffer.len()
                } else {
                    1024 * 1024
                };
                let ghost old_stack = stack@;
                let ghost full = buffer@;
                stack.push(buffer);
                buffer = vec![0u8; len * 2];
                proof {
                    let b = whole->Some_0;
                    let rem = enc.spec_remaining();
                    assert(stack@.drop_last() =~= old_stack);
                    assert(stack@.last() == stack@[stack@.len() - 1]);
                    assert(b.subrange(rem as int, b.len() as int) =~= b.subrange(rem as int, rem0 as int) + b.subrange(rem0 as int, b.len() as int));
                }
            },
        }
    }
    let mut out: Vec<u8> = Vec::new();
    let mut i: usize = start;
    while i < buffer.len()
        invariant
            start <= i <= buffer@.len(),
            out@ == buffer@.subrange(start as int, i as int),
        decreases buffer@.len() - i,
    {
        out.push(buffer[i]);
        i += 1;
        assert(out@ =~= buffer@.subrange(start as int, i as int));
    }
    while stack.len() > 0
        invariant
            whole matches Some(b) ==> out@ + spec_stacked(stack@) == b,
        decreases stack@.len(),
    {
        let ghost before = stack@;
        let old_buffer = stack.pop().unwrap();
        proof {
            assert(before.drop_last() == stack@);
            assert(before.last() == old_buffer);
        }
        let ghost out0 = out@;
        out.extend_from_slice(old_buffer.as_slice());
        proof {
            assert forall|k: int| 0 <= k < out@.len() implies out@[k] == (out0 + old_buffer@)[k] by {
                if k >= out0.len() {
                    assert(out@[k] == old_buffer@[k - out0.len()]);
                }
            }
            assert(out@ =~= out0 + old_buffer@);
            let b = whole->Some_0;
            assert(out0 + spec_stacked(before) =~= out@ + spec_stacked(stack@));
        }
    }
    assert(out@ =~= out@ + spec_stacked(stack@));
    Ok(out)
}

} // verus!

verus! {

/// Every prefix of bytes that decode as a message can still start a
/// message: a decoder fed a valid encoding in pieces accepts every piece.
pub proof fn lemma_valid_prefixes_ok(pool: Seq<Table>, t: int, s: Seq<u8>, o: ObjectView, fuel: nat, k: nat)
    requires
        spec_dec_msg(pool, t, s, o, fuel) is Some,
        k <= s.len(),
    ensures
        spec_stream_ok(pool, t, s.take(k as int), o, fuel),
    decreases s.len(),
{
    let p = s.take(k as int);
    if k == 0 {
        assert(p.len() == 0);
        return;
    }
    let (tag, n) = spec_read_tag(s)->Some_0;
    let f = tag >> 3u64;
    let w = tag & 7;
    lemma_varint_from_len(s, 0, 5, 15);
    assert(spec_agree(p, s, k));
    if spec_read_tag(p) is Some {
        let (tag2, n2) = spec_read_tag(p)->Some_0;
        lemma_varint_from_len(p, 0, 5, 15);
        lemma_varint_from_prefix(p, s, 0, 5, 15, k);
    }
    if k < n {
        return;
    }
    lemma_varint_from_prefix(s, p, 0, 5, 15, k);
    let (o2, m) = spec_dec_field(pool, t, s.skip(n as int), o, fuel, f, w)->Some_0;
    if w >= 6 {
        assert(spec_skip_field(s.skip(n as int), w, fuel, f) is None);
        assert(false);
    }
    let ps = p.skip(n as int);
    let ss = s.skip(n as int);
    assert(spec_agree(ps, ss, (k - n) as nat));
    lemma_dec_field_len(pool, t, ss, o, fuel, f, w);
    if spec_skip_field(ps, w, fuel, f) is Some {
        let m0 = spec_skip_field(ps, w, fuel, f)->Some_0;
        if n + m0 <= p.len() {
            lemma_skip_field_prefix(ps, ss, w, fuel, f, (k - n) as nat);
            assert(m0 == m);
            assert(spec_agree(ss, ps, (k - n) as nat));
            lemma_dec_field_prefix(pool, t, ss, ps, o, fuel, f, w, (k - n) as nat);
            let rest = s.skip((n + m) as int);
            assert(p.skip((n + m) as int) =~= rest.take(k - n - m));
            lemma_valid_prefixes_ok(pool, t, rest, o2, fuel, (k - n - m) as nat);
        }
    }
}

} // verus!
