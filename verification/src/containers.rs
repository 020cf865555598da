//! Growable containers that hold the repeated and string fields of messages.
use vstd::prelude::*;

verus! {

/// A growable sequence of values: the storage of a repeated field. Besides
/// its elements it counts the room that `reserve` has asked for.
pub struct RepeatedField<T> {
    pub vec: Vec<T>,
    pub reserved: usize,
}

/// The storage of a `bytes` or `string` field.
pub type Bytes = RepeatedField<u8>;

impl<T> View for RepeatedField<T> {
    type V = Seq<T>;

    open spec fn view(&self) -> Seq<T> {
        self.vec@
    }
}

impl<T> RepeatedField<T> {
    /// The number of elements it has room for: its length, or what `reserve`
    /// last made room for where that is more.
    pub closed spec fn spec_capacity(&self) -> nat {
        if self.reserved >= self.vec@.len() {
            self.reserved as nat
        } else {
            self.vec@.len()
        }
    }

    /// The number of elements it has room for.
    pub fn cap(&self) -> (r: usize)
        ensures
            r == self.spec_capacity(),
    {
        if self.reserved >= self.vec.len() {
            self.reserved
        } else {
            self.vec.len()
        }
    }

    /// An empty field.
    pub fn new() -> (r: Self)
        ensures
            r@ == Seq::<T>::empty(),
            r.spec_capacity() == 0,
    {
        RepeatedField { vec: Vec::new(), reserved: 0 }
    }

    /// A field that holds a copy of `slice`.
    pub fn from_slice(slice: &[T]) -> (r: Self) where T: Copy
        ensures
            r@ == slice@,
    {
        let mut rf = Self::new();
        rf.append(slice);
        rf
    }

    /// A field that holds a copy of a static slice.
    pub fn from_static(slice: &'static [T]) -> (r: Self) where T: Copy
        ensures
            r@ == slice@,
    {
        Self::from_slice(slice)
    }

    /// The number of elements.
    pub fn len(&self) -> (r: usize)
        ensures
            r == self@.len(),
    {
        self.vec.len()
    }

    /// Whether there are no elements.
    pub fn is_empty(&self) -> (r: bool)
        ensures
            r == (self@.len() == 0),
    {
        self.vec.len() == 0
    }

    /// The elements as a slice.
    pub fn slice(&self) -> (r: &[T])
        ensures
            r@ == self@,
    {
        self.vec.as_slice()
    }

    /// The element at `index`.
    pub fn get(&self, index: usize) -> (r: &T)
        requires
            index < self@.len(),
        ensures
            *r == self@[index as int],
    {
        &self.vec[index]
    }

    /// Appends `elem` at the end.
    pub fn push(&mut self, elem: T)
        ensures
            final(self)@ == old(self)@.push(elem),
    {
        self.vec.push(elem);
    }

    /// Removes and returns the last element, if any.
    pub fn pop(&mut self) -> (r: Option<T>)
        ensures
            old(self)@.len() == 0 ==> r is None && final(self)@ == old(self)@,
            old(self)@.len() > 0 ==> r == Some(old(self)@.last()) && final(self)@ == old(self)@.drop_last(),
    {
        self.vec.pop()
    }

    /// Inserts `elem` at `index`, shifting later elements up.
    pub fn insert(&mut self, index: usize, elem: T)
        requires
            index <= old(self)@.len(),
        ensures
            final(self)@ == old(self)@.insert(index as int, elem),
    {
        self.vec.insert(index, elem);
    }

    /// Removes and returns the element at `index`, shifting later elements down.
    pub fn remove(&mut self, index: usize) -> (r: T)
        requires
            index < old(self)@.len(),
        ensures
            r == old(self)@[index as int],
            final(self)@ == old(self)@.remove(index as int),
    {
        self.vec.remove(index)
    }

    /// Takes all elements out, leaving the field empty; the drain hands them
    /// out in order.
    pub fn drain(&mut self) -> (r: Drain<T>)
        ensures
            r@ == old(self)@,
            final(self)@ == Seq::<T>::empty(),
    {
        let mut out = Vec::new();
        std::mem::swap(&mut out, &mut self.vec);
        self.reserved = 0;
        Drain { iter: IntoIter::from_vec(out) }
    }

    /// An iterator that hands out the elements in order.
    pub fn into_iter(self) -> (r: IntoIter<T>)
        ensures
            r@ == self@,
    {
        IntoIter::from_vec(self.vec)
    }

    /// Removes all elements.
    pub fn clear(&mut self)
        ensures
            final(self)@ == Seq::<T>::empty(),
    {
        self.vec.clear();
    }

    /// Makes room for `new_cap` elements where it has room for fewer; the
    /// contents stay as they are.
    pub fn reserve(&mut self, new_cap: usize)
        ensures
            final(self)@ == old(self)@,
            final(self).spec_capacity() == if new_cap > old(self).spec_capacity() {
                new_cap as nat
            } else {
                old(self).spec_capacity()
            },
    {
        let room = self.cap();
        if new_cap > room {
            self.vec.reserve(new_cap - self.vec.len());
            self.reserved = new_cap;
        }
    }

    /// Replaces the contents with a copy of `slice`.
    pub fn assign(&mut self, slice: &[T]) where T: Copy
        ensures
            final(self)@ == slice@,
    {
        self.clear();
        self.append(slice);
    }

    /// Appends a copy of `slice` at the end.
    pub fn append(&mut self, slice: &[T]) where T: Copy
        ensures
            final(self)@ == old(self)@ + slice@,
    {
        let mut i: usize = 0;
        while i < slice.len()
            invariant
                i <= slice@.len(),
                self@ == old(self)@ + slice@.subrange(0, i as int),
            decreases slice@.len() - i,
        {
            self.vec.push(slice[i]);
            assert(old(self)@ + slice@.subrange(0, i + 1) =~= old(self)@ + slice@.subrange(0, i as int)
                + seq![slice@[i as int]]);
            i = i + 1;
        }
        assert(slice@.subrange(0, slice@.len() as int) =~= slice@);
    }
}

/// The storage of a `string` field: text that is valid UTF-8.
pub struct String {
    pub text: std::string::String,
}

impl View for String {
    type V = Seq<char>;

    open spec fn view(&self) -> Seq<char> {
        self.text@
    }
}

impl String {
    /// An empty string.
    pub fn new() -> (r: Self)
        ensures
            r@ == Seq::<char>::empty(),
    {
        String { text: std::string::String::new() }
    }

    /// A string that holds a copy of a static text.
    pub fn from_static(s: &'static str) -> (r: Self)
        ensures
            r@ == s@,
    {
        String { text: s.to_owned() }
    }

    /// The text.
    pub fn as_str(&self) -> (r: &str)
        ensures
            r@ == self@,
    {
        self.text.as_str()
    }

    /// Replaces the text with a copy of `s`.
    pub fn assign(&mut self, s: &str)
        ensures
            final(self)@ == s@,
    {
        self.text = s.to_owned();
    }
}

/// Hands out the elements of a field, from the front or from the back. The
/// elements left are kept last first.
pub struct IntoIter<T> {
    rest: Vec<T>,
}

impl<T> View for IntoIter<T> {
    type V = Seq<T>;

    /// The elements left, in order.
    closed spec fn view(&self) -> Seq<T> {
        self.rest@.reverse()
    }
}

impl<T> IntoIter<T> {
    fn from_vec(v: Vec<T>) -> (r: Self)
        ensures
            r@ == v@,
    {
        let mut v = v;
        let ghost all = v@;
        let mut rest: Vec<T> = Vec::new();
        while v.len() > 0
            invariant
                all == v@ + rest@.reverse(),
            decreases v@.len(),
        {
            let ghost before = v@;
            let x = v.pop().unwrap();
            proof {
                assert(before == v@.push(x));
            }
            rest.push(x);
            assert(all =~= v@ + rest@.reverse());
        }
        assert(all =~= rest@.reverse());
        IntoIter { rest }
    }

    /// The first element left, if any.
    pub fn next(&mut self) -> (r: Option<T>)
        ensures
            old(self)@.len() == 0 ==> r is None && final(self)@ == old(self)@,
            old(self)@.len() > 0 ==> r == Some(old(self)@[0]) && final(self)@ == old(self)@.drop_first(),
    {
        let ghost before = self.rest@;
        let r = self.rest.pop();
        proof {
            if before.len() > 0 {
                assert(before.reverse() =~= seq![before.last()] + self.rest@.reverse());
                assert(self.rest@.reverse() =~= before.reverse().drop_first());
            }
        }
        r
    }

    /// The last element left, if any.
    pub fn next_back(&mut self) -> (r: Option<T>)
        ensures
            old(self)@.len() == 0 ==> r is None && final(self)@ == old(self)@,
            old(self)@.len() > 0 ==> r == Some(old(self)@.last()) && final(self)@ == old(self)@.drop_last(),
    {
        if self.rest.len() == 0 {
            return None;
        }
        let ghost before = self.rest@;
        let x = self.rest.remove(0);
        proof {
            assert(before.reverse() =~= self.rest@.reverse().push(before[0]));
        }
        Some(x)
    }

    /// How many elements are left.
    pub fn len(&self) -> (r: usize)
        ensures
            r == self@.len(),
    {
        self.rest.len()
    }
}

/// The elements taken out of a field by `drain`.
pub struct Drain<T> {
    iter: IntoIter<T>,
}

impl<T> View for Drain<T> {
    type V = Seq<T>;

    /// The elements left, in order.
    closed spec fn view(&self) -> Seq<T> {
        self.iter@
    }
}

impl<T> Drain<T> {
    /// The first element left, if any.
    pub fn next(&mut self) -> (r: Option<T>)
        ensures
            old(self)@.len() == 0 ==> r is None && final(self)@ == old(self)@,
            old(self)@.len() > 0 ==> r == Some(old(self)@[0]) && final(self)@ == old(self)@.drop_first(),
    {
        self.iter.next()
    }

    /// The last element left, if any.
    pub fn next_back(&mut self) -> (r: Option<T>)
        ensures
            old(self)@.len() == 0 ==> r is None && final(self)@ == old(self)@,
            old(self)@.len() > 0 ==> r == Some(old(self)@.last()) && final(self)@ == old(self)@.drop_last(),
    {
        self.iter.next_back()
    }

    /// How many elements are left.
    pub fn len(&self) -> (r: usize)
        ensures
            r == self@.len(),
    {
        self.iter.len()
    }
}

/// A raw buffer of `cap` elements of `elem_size` bytes each, which grows by
/// the capacity rules of repeated fields: to 1 element (or the asked
/// capacity) from empty, else to twice its capacity (or the asked one). Its
/// size in bytes stays within `isize::MAX`.
pub struct RawVec {
    bytes: Vec<u8>,
    cap: usize,
}

impl RawVec {
    /// Its bytes and capacity match, for elements of `elem_size` bytes.
    pub closed spec fn wf(&self, elem_size: usize) -> bool {
        &&& elem_size > 0
        &&& self.cap * elem_size <= isize::MAX
        &&& self.bytes@.len() == self.cap * elem_size
    }

    /// The number of elements it can hold.
    pub closed spec fn capacity(&self) -> nat {
        self.cap as nat
    }

    /// Its bytes.
    pub closed spec fn contents(&self) -> Seq<u8> {
        self.bytes@
    }

    /// A well-formed buffer holds `elem_size` bytes for each element it has
    /// room for, within `isize::MAX` bytes.
    pub proof fn lemma_wf_size(&self, elem_size: usize)
        requires
            self.wf(elem_size),
        ensures
            elem_size > 0,
            self.contents().len() == self.capacity() * elem_size,
            self.capacity() * elem_size <= isize::MAX,
    {
    }

    /// An empty buffer.
    pub fn new(elem_size: usize) -> (r: Self)
        requires
            elem_size > 0,
        ensures
            r.wf(elem_size),
            r.capacity() == 0,
    {
        RawVec { bytes: Vec::new(), cap: 0 }
    }

    /// The capacity that growing to `new_cap` gives: 1 (or `new_cap`) from
    /// empty; twice the capacity (or `new_cap`) otherwise.
    pub open spec fn spec_grown(cap: nat, new_cap: nat) -> nat {
        if new_cap == 0 {
            if cap == 0 { 1 } else { 2 * cap }
        } else {
            new_cap
        }
    }

    /// The capacity.
    pub fn cap(&self) -> (r: usize)
        ensures
            r == self.capacity(),
    {
        self.cap
    }

    /// Grows to the capacity that `new_cap` asks for (see `spec_grown`); the
    /// bytes it held come first in the new buffer, the rest are zero. Where
    /// it holds elements, an asked capacity must exceed the one it has.
    pub fn grow(self, new_cap: usize, elem_size: usize) -> (r: Self)
        requires
            self.wf(elem_size),
            self.capacity() > 0 && new_cap > 0 ==> new_cap > self.capacity(),
            RawVec::spec_grown(self.capacity(), new_cap as nat) * elem_size <= isize::MAX,
        ensures
            r.wf(elem_size),
            r.capacity() == RawVec::spec_grown(self.capacity(), new_cap as nat),
            r.contents().subrange(0, self.contents().len() as int) == self.contents(),
            forall|i: int| self.contents().len() <= i < r.contents().len() ==> r.contents()[i] == 0,
    {
        assert(RawVec::spec_grown(self.cap as nat, new_cap as nat) <= isize::MAX) by (nonlinear_arith)
            requires
                RawVec::spec_grown(self.cap as nat, new_cap as nat) * elem_size <= isize::MAX,
                elem_size > 0;
        let target: usize = if new_cap == 0 {
            if self.cap == 0 { 1 } else { 2 * self.cap }
        } else {
            new_cap
        };
        assert(target * elem_size <= isize::MAX);
        assert(self.cap <= target) by (nonlinear_arith)
            requires
                target == RawVec::spec_grown(self.cap as nat, new_cap as nat),
                self.cap > 0 && new_cap > 0 ==> new_cap > self.cap;
        assert(self.cap * elem_size <= target * elem_size) by (nonlinear_arith)
            requires
                self.cap <= target;
        let size = target * elem_size;
        let mut bytes = self.bytes;
        let ghost old_bytes = bytes@;
        while bytes.len() < size
            invariant
                old_bytes.len() <= bytes@.len() <= size,
                bytes@.subrange(0, old_bytes.len() as int) == old_bytes,
                forall|i: int| old_bytes.len() <= i < bytes@.len() ==> bytes@[i] == 0,
            decreases size - bytes@.len(),
        {
            bytes.push(0);
            assert(bytes@.subrange(0, old_bytes.len() as int) =~= old_bytes);
        }
        RawVec { bytes, cap: target }
    }

    /// Makes room for `new_cap` elements where it has fewer.
    pub fn reserve(&mut self, new_cap: usize, elem_size: usize)
        requires
            old(self).wf(elem_size),
            new_cap > old(self).capacity() ==> new_cap * elem_size <= isize::MAX,
        ensures
            final(self).wf(elem_size),
            final(self).capacity() == if new_cap > old(self).capacity() { new_cap as nat } else { old(self).capacity() },
            final(self).contents().subrange(0, old(self).contents().len() as int) == old(self).contents(),
    {
        if new_cap > self.cap {
            let mut tmp = RawVec { bytes: Vec::new(), cap: 0 };
            std::mem::swap(&mut tmp, self);
            *self = tmp.grow(new_cap, elem_size);
        } else {
            assert(self.bytes@.subrange(0, self.bytes@.len() as int) =~= self.bytes@);
        }
    }

    /// Makes room for one more element after the first `*len` and counts it;
    /// the byte offset of its place. Where the buffer is full it grows.
    pub fn push_uninitialized(&mut self, len: &mut usize, elem_size: usize) -> (r: usize)
        requires
            old(self).wf(elem_size),
            *old(len) <= old(self).capacity(),
            *old(len) == old(self).capacity() ==> RawVec::spec_grown(old(self).capacity(), 0) * elem_size <= isize::MAX,
        ensures
            final(self).wf(elem_size),
            *final(len) == *old(len) + 1,
            *final(len) <= final(self).capacity(),
            r == *old(len) * elem_size,
            final(self).capacity() == if *old(len) == old(self).capacity() {
                RawVec::spec_grown(old(self).capacity(), 0)
            } else {
                old(self).capacity()
            },
            final(self).contents().subrange(0, old(self).contents().len() as int) == old(self).contents(),
    {
        let l = *len;
        if l == self.cap {
            let mut tmp = RawVec { bytes: Vec::new(), cap: 0 };
            std::mem::swap(&mut tmp, self);
            *self = tmp.grow(0, elem_size);
        } else {
            assert(self.bytes@.subrange(0, self.bytes@.len() as int) =~= self.bytes@);
        }
        assert(l * elem_size <= self.cap * elem_size) by (nonlinear_arith)
            requires
                l <= self.cap;
        *len = l + 1;
        l * elem_size
    }

    /// Uncounts the last of the first `*len` elements; the byte offset of its
    /// place, or `None` where there is none.
    pub fn pop(&mut self, len: &mut usize, elem_size: usize) -> (r: Option<usize>)
        requires
            old(self).wf(elem_size),
            *old(len) <= old(self).capacity(),
        ensures
            *final(self) == *old(self),
            *old(len) == 0 ==> r is None && *final(len) == 0,
            *old(len) > 0 ==> *final(len) == *old(len) - 1 && r == Some(((*old(len) - 1) * elem_size) as usize),
    {
        let l = *len;
        if l == 0 {
            None
        } else {
            let l = l - 1;
            assert(l * elem_size <= self.cap * elem_size) by (nonlinear_arith)
                requires
                    l <= self.cap;
            *len = l;
            Some(l * elem_size)
        }
    }
}

} // verus!
