//! The JSON forms of the well-known types: timestamps, durations and the
//! wrapper messages; and the text forms that they use.
use vstd::prelude::*;
use vstd::string::StringSliceAdditionalSpecFns;
use std::string::String;
use crate::descriptor::DescriptorProto;

verus! {

/// The well-known message types that have a JSON form of their own.
#[derive(Clone, Copy, PartialEq, Eq, Debug, Structural)]
pub enum WellKnownType {
    BoolValue,
    Int32Value,
    Int64Value,
    UInt32Value,
    UInt64Value,
    FloatValue,
    DoubleValue,
    StringValue,
    BytesValue,
    Timestamp,
    Duration,
    Plain,
}

/// The well-known type that a message type of this name is taken for (by its
/// name alone, whatever its package).
pub open spec fn spec_well_known(name: Seq<char>) -> WellKnownType {
    if name == "BoolValue"@ {
        WellKnownType::BoolValue
    } else if name == "Int32Value"@ {
        WellKnownType::Int32Value
    } else if name == "Int64Value"@ {
        WellKnownType::Int64Value
    } else if name == "UInt32Value"@ {
        WellKnownType::UInt32Value
    } else if name == "UInt64Value"@ {
        WellKnownType::UInt64Value
    } else if name == "FloatValue"@ {
        WellKnownType::FloatValue
    } else if name == "DoubleValue"@ {
        WellKnownType::DoubleValue
    } else if name == "StringValue"@ {
        WellKnownType::StringValue
    } else if name == "BytesValue"@ {
        WellKnownType::BytesValue
    } else if name == "Timestamp"@ {
        WellKnownType::Timestamp
    } else if name == "Duration"@ {
        WellKnownType::Duration
    } else {
        WellKnownType::Plain
    }
}

fn name_is(name: &String, s: &str) -> (r: bool)
    ensures
        r == (name@ == s@),
{
    let t: String = s.to_owned();
    *name == t
}

/// The well-known type of a message type, by its name.
pub fn detect_well_known_type(descriptor: &DescriptorProto) -> (r: WellKnownType)
    ensures
        r == spec_well_known(descriptor.name@),
{
    let n = &descriptor.name;
    if name_is(n, "BoolValue") {
        WellKnownType::BoolValue
    } else if name_is(n, "Int32Value") {
        WellKnownType::Int32Value
    } else if name_is(n, "Int64Value") {
        WellKnownType::Int64Value
    } else if name_is(n, "UInt32Value") {
        WellKnownType::UInt32Value
    } else if name_is(n, "UInt64Value") {
        WellKnownType::UInt64Value
    } else if name_is(n, "FloatValue") {
        WellKnownType::FloatValue
    } else if name_is(n, "DoubleValue") {
        WellKnownType::DoubleValue
    } else if name_is(n, "StringValue") {
        WellKnownType::StringValue
    } else if name_is(n, "BytesValue") {
        WellKnownType::BytesValue
    } else if name_is(n, "Timestamp") {
        WellKnownType::Timestamp
    } else if name_is(n, "Duration") {
        WellKnownType::Duration
    } else {
        WellKnownType::Plain
    }
}

/// Why a timestamp or a duration has no text form, or a text is none.
#[derive(Clone, Copy, PartialEq, Eq, Debug, Structural)]
pub enum TimeError {
    /// Seconds outside the range of the type.
    SecondsOutOfRange,
    /// Nanoseconds outside the range of the type.
    NanosOutOfRange,
    /// A duration whose seconds and nanoseconds have different signs.
    SignMismatch,
    /// A duration text that does not end with `s`.
    MissingSuffix,
    /// Seconds that do not parse.
    InvalidSeconds,
    /// Nanoseconds that do not parse.
    InvalidNanos,
    /// A timestamp text that is not RFC 3339, or one out of range.
    InvalidTimestamp,
    /// A timestamp that could not be written.
    FormatFailed,
}

/// The first second of year 1, and the last of year 9999, since the epoch.
pub const TIMESTAMP_MIN_SECONDS: i64 = -62135596800;
pub const TIMESTAMP_MAX_SECONDS: i64 = 253402300799;

/// About 10,000 years, in seconds.
pub const DURATION_MAX_SECONDS: i64 = 315576000000;

pub open spec fn spec_validate_timestamp(seconds: i64, nanos: i32) -> Result<(), TimeError> {
    if seconds < TIMESTAMP_MIN_SECONDS || seconds > TIMESTAMP_MAX_SECONDS {
        Err(TimeError::SecondsOutOfRange)
    } else if nanos < 0 || nanos > 999_999_999 {
        Err(TimeError::NanosOutOfRange)
    } else {
        Ok(())
    }
}

/// Checks that a timestamp lies in years 1 to 9999, with nanoseconds below a
/// second.
pub fn validate_timestamp(seconds: i64, nanos: i32) -> (r: Result<(), TimeError>)
    ensures
        r == spec_validate_timestamp(seconds, nanos),
{
    if seconds < TIMESTAMP_MIN_SECONDS || seconds > TIMESTAMP_MAX_SECONDS {
        return Err(TimeError::SecondsOutOfRange);
    }
    if nanos < 0 || nanos > 999_999_999 {
        return Err(TimeError::NanosOutOfRange);
    }
    Ok(())
}

pub open spec fn spec_validate_duration(seconds: i64, nanos: i32) -> Result<(), TimeError> {
    if seconds < -DURATION_MAX_SECONDS || seconds > DURATION_MAX_SECONDS {
        Err(TimeError::SecondsOutOfRange)
    } else if nanos < -999_999_999 || nanos > 999_999_999 {
        Err(TimeError::NanosOutOfRange)
    } else if (seconds > 0 && nanos < 0) || (seconds < 0 && nanos > 0) {
        Err(TimeError::SignMismatch)
    } else {
        Ok(())
    }
}

/// Checks that a duration lies within about 10,000 years, with nanoseconds
/// below a second and of the sign of the seconds.
pub fn validate_duration(seconds: i64, nanos: i32) -> (r: Result<(), TimeError>)
    ensures
        r == spec_validate_duration(seconds, nanos),
{
    if seconds < -DURATION_MAX_SECONDS || seconds > DURATION_MAX_SECONDS {
        return Err(TimeError::SecondsOutOfRange);
    }
    if nanos < -999_999_999 || nanos > 999_999_999 {
        return Err(TimeError::NanosOutOfRange);
    }
    if (seconds > 0 && nanos < 0) || (seconds < 0 && nanos > 0) {
        return Err(TimeError::SignMismatch);
    }
    Ok(())
}

// ----- decimal text -----

/// The decimal digits of `n`, without leading zeros ("0" for zero).
pub open spec fn spec_decimal(n: nat) -> Seq<u8>
    decreases n,
{
    if n < 10 {
        seq![(48 + n) as u8]
    } else {
        spec_decimal(n / 10).push((48 + n % 10) as u8)
    }
}

/// The decimal text of `i`, with `-` before a negative one.
pub open spec fn spec_signed_decimal(i: int) -> Seq<u8> {
    if i < 0 {
        seq![45u8] + spec_decimal((-i) as nat)
    } else {
        spec_decimal(i as nat)
    }
}

/// Appends the decimal digits of `n`.
pub fn push_decimal(out: &mut Vec<u8>, n: u64)
    ensures
        final(out)@ == old(out)@ + spec_decimal(n as nat),
    decreases n,
{
    if n < 10 {
        out.push(48 + n as u8);
        assert(out@ =~= old(out)@ + spec_decimal(n as nat));
    } else {
        push_decimal(out, n / 10);
        out.push(48 + (n % 10) as u8);
        assert(out@ =~= old(out)@ + spec_decimal(n as nat));
    }
}

/// Appends the decimal text of `i`.
pub fn push_signed_decimal(out: &mut Vec<u8>, i: i64)
    ensures
        final(out)@ == old(out)@ + spec_signed_decimal(i as int),
{
    if i < 0 {
        out.push(45);
        let ghost mid = out@;
        let m: u64 = if i == i64::MIN {
            0x8000_0000_0000_0000
        } else {
            (-i) as u64
        };
        push_decimal(out, m);
        assert(out@ =~= old(out)@ + spec_signed_decimal(i as int));
    } else {
        push_decimal(out, i as u64);
    }
}

/// The nine digits of `n`, with leading zeros.
pub open spec fn spec_nine_digits(n: nat) -> Seq<u8> {
    Seq::new(9, |k: int| (48 + (n / spec_pow10((8 - k) as nat)) % 10) as u8)
}

pub open spec fn spec_pow10(e: nat) -> nat
    decreases e,
{
    if e == 0 {
        1
    } else {
        10 * spec_pow10((e - 1) as nat)
    }
}

/// `s` with its trailing zero digits taken off.
pub open spec fn spec_trim_zeros(s: Seq<u8>) -> Seq<u8>
    decreases s.len(),
{
    if s.len() > 0 && s.last() == 48u8 {
        spec_trim_zeros(s.drop_last())
    } else {
        s
    }
}

/// The text of a duration: `0s` for zero, the seconds and `s` without
/// nanoseconds, else the seconds, a dot, the nine digits of the nanoseconds
/// without their trailing zeros, and `s`; signed by the total.
pub open spec fn spec_format_duration(seconds: i64, nanos: i32) -> Result<Seq<u8>, TimeError> {
    match spec_validate_duration(seconds, nanos) {
        Err(e) => Err(e),
        Ok(_) => if seconds == 0 && nanos == 0 {
            Ok(seq![48u8, 115u8])
        } else if nanos == 0 {
            Ok(spec_signed_decimal(seconds as int).push(115u8))
        } else {
            let total = seconds * 1_000_000_000 + nanos;
            let abs = if total < 0 {
                -total
            } else {
                total
            };
            let sign = if total < 0 {
                seq![45u8]
            } else {
                Seq::<u8>::empty()
            };
            Ok(sign + spec_decimal((abs / 1_000_000_000) as nat) + seq![46u8] + spec_trim_zeros(
                spec_nine_digits((abs % 1_000_000_000) as nat),
            ) + seq![115u8])
        },
    }
}

/// The text form of a duration (see `spec_format_duration`).
pub fn format_duration(seconds: i64, nanos: i32) -> (r: Result<Vec<u8>, TimeError>)
    ensures
        match r {
            Ok(v) => spec_format_duration(seconds, nanos) == Ok::<Seq<u8>, TimeError>(v@),
            Err(e) => spec_format_duration(seconds, nanos) == Err::<Seq<u8>, TimeError>(e),
        },
{
    match validate_duration(seconds, nanos) {
        Err(e) => return Err(e),
        Ok(_) => {},
    }
    let mut out: Vec<u8> = Vec::new();
    if seconds == 0 && nanos == 0 {
        out.push(48);
        out.push(115);
        assert(out@ =~= seq![48u8, 115u8]);
        return Ok(out);
    }
    if nanos == 0 {
        push_signed_decimal(&mut out, seconds);
        out.push(115);
        return Ok(out);
    }
    let total: i128 = (seconds as i128) * 1_000_000_000 + nanos as i128;
    let abs: i128 = if total < 0 {
        -total
    } else {
        total
    };
    if total < 0 {
        out.push(45);
    }
    let ghost signed = out@;
    push_decimal(&mut out, (abs / 1_000_000_000) as u64);
    out.push(46);
    let ghost before_frac = out@;
    let frac_start = out.len();
    let frac = (abs % 1_000_000_000) as u64;
    push_nine_digits(&mut out, frac);
    assert(out@.subrange(0, frac_start as int) =~= before_frac);
    assert(out@.subrange(frac_start as int, out@.len() as int) =~= spec_nine_digits(frac as nat));
    trim_zeros(&mut out, frac_start);
    out.push(115);
    proof {
        assert(signed =~= if total < 0 { seq![45u8] } else { Seq::<u8>::empty() });
    }
    assert(out@ =~= signed + spec_decimal((abs / 1_000_000_000) as nat) + seq![46u8] + spec_trim_zeros(spec_nine_digits(frac as nat)) + seq![115u8]);
    Ok(out)
}

/// Appends the nine digits of `n`, with leading zeros.
fn push_nine_digits(out: &mut Vec<u8>, n: u64)
    requires
        n < 1_000_000_000,
    ensures
        final(out)@ == old(out)@ + spec_nine_digits(n as nat),
{
    let mut div: u64 = 100_000_000;
    let mut k: usize = 0;
    proof {
        reveal_with_fuel(spec_pow10, 10);
    }
    while k < 9
        invariant
            k <= 9,
            n < 1_000_000_000,
            div == spec_pow10((8 - k) as nat) || (k == 9 && div == 0),
            k < 9 ==> div == spec_pow10((8 - k) as nat),
            out@ == old(out)@ + spec_nine_digits(n as nat).take(k as int),
        decreases 9 - k,
    {
        proof {
            reveal_with_fuel(spec_pow10, 10);
            assert(spec_pow10(8) == 100_000_000);
            assert(spec_pow10(0) == 1);
        }
        let d = (n / div) % 10;
        out.push(48 + d as u8);
        proof {
            assert(spec_nine_digits(n as nat).take(k + 1) =~= spec_nine_digits(n as nat).take(k as int).push((48 + d) as u8));
        }
        div = div / 10;
        k += 1;
        proof {
            reveal_with_fuel(spec_pow10, 10);
        }
    }
    assert(spec_nine_digits(n as nat).take(9) =~= spec_nine_digits(n as nat));
}

/// Takes the trailing zero digits off `out` after position `from`.
fn trim_zeros(out: &mut Vec<u8>, from: usize)
    requires
        from <= old(out)@.len(),
    ensures
        final(out)@ == old(out)@.subrange(0, from as int) + spec_trim_zeros(old(out)@.subrange(from as int, old(out)@.len() as int)),
{
    while out.len() > from && out[out.len() - 1] == 48
        invariant
            from <= out@.len() <= old(out)@.len(),
            out@ == old(out)@.subrange(0, out@.len() as int),
            spec_trim_zeros(old(out)@.subrange(from as int, old(out)@.len() as int)) == spec_trim_zeros(out@.subrange(from as int, out@.len() as int)),
        decreases out@.len(),
    {
        let ghost before = out@;
        out.pop();
        proof {
            assert(before.subrange(from as int, before.len() as int).drop_last() =~= out@.subrange(from as int, out@.len() as int));
            assert(out@ =~= old(out)@.subrange(0, out@.len() as int));
        }
    }
    proof {
        let rest = out@.subrange(from as int, out@.len() as int);
        assert(spec_trim_zeros(rest) == rest);
        assert(out@ =~= old(out)@.subrange(0, from as int) + rest);
    }
}


// ----- parsing integers and durations -----

/// Whether every byte of `d` is an ASCII digit.
pub open spec fn spec_all_digits(d: Seq<u8>) -> bool {
    forall|i: int| 0 <= i < d.len() ==> 48 <= #[trigger] d[i] <= 57
}

/// The number that decimal digits `d` stand for.
pub open spec fn spec_digits_value(d: Seq<u8>) -> nat
    decreases d.len(),
{
    if d.len() == 0 {
        0
    } else {
        spec_digits_value(d.drop_last()) * 10 + (d.last() - 48) as nat
    }
}

/// An integer from `-neg_limit` to `pos_limit` written in decimal, with an
/// optional `+` or `-` before its digits (at least one digit, nothing else).
pub open spec fn spec_parse_int(b: Seq<u8>, neg_limit: nat, pos_limit: nat) -> Option<int> {
    if b.len() == 0 {
        None
    } else {
        let neg = b[0] == 45u8;
        let digits = if b[0] == 45u8 || b[0] == 43u8 {
            b.drop_first()
        } else {
            b
        };
        if digits.len() == 0 || !spec_all_digits(digits) {
            None
        } else {
            let v = spec_digits_value(digits);
            if neg {
                if v <= neg_limit {
                    Some(-v)
                } else {
                    None
                }
            } else {
                if v <= pos_limit {
                    Some(v as int)
                } else {
                    None
                }
            }
        }
    }
}

proof fn lemma_digits_value_grows(d: Seq<u8>, k: int)
    requires
        0 <= k <= d.len(),
        spec_all_digits(d),
    ensures
        spec_digits_value(d.take(k)) <= spec_digits_value(d),
    decreases d.len() - k,
{
    if k < d.len() {
        lemma_digits_value_grows(d, k + 1);
        assert(d.take(k + 1).drop_last() =~= d.take(k));
    } else {
        assert(d.take(k) =~= d);
    }
}

/// Parses the decimal magnitude `b[from..]` up to `limit`: its value, or
/// `None` where a byte is not a digit, there is none, or it exceeds `limit`.
pub(crate) fn parse_magnitude(b: &[u8], from: usize, limit: u64) -> (r: Option<u64>)
    requires
        from <= b@.len(),
    ensures
        ({
            let d = b@.subrange(from as int, b@.len() as int);
            match r {
                Some(v) => d.len() > 0 && spec_all_digits(d) && v == spec_digits_value(d) && v <= limit,
                None => d.len() == 0 || !spec_all_digits(d) || spec_digits_value(d) > limit,
            }
        }),
{
    let ghost d = b@.subrange(from as int, b@.len() as int);
    if from == b.len() {
        return None;
    }
    let mut acc: u64 = 0;
    let mut i: usize = from;
    while i < b.len()
        invariant
            from <= i <= b@.len(),
            d == b@.subrange(from as int, b@.len() as int),
            acc <= limit,
            spec_all_digits(d.take(i - from)),
            acc == spec_digits_value(d.take(i - from)),
        decreases b@.len() - i,
    {
        let c = b[i];
        if c < 48 || c > 57 {
            proof {
                assert(d[i - from] == c);
            }
            return None;
        }
        let digit = (c - 48) as u64;
        proof {
            assert(d.take(i - from + 1).drop_last() =~= d.take(i - from));
            assert(d.take(i - from + 1).last() == c);
        }
        if digit > limit || acc > (limit - digit) / 10 {
            proof {
                if digit <= limit {
                    assert(acc * 10 + digit > limit) by (nonlinear_arith)
                        requires
                            acc > (limit - digit) / 10,
                            digit <= limit;
                }
                if !spec_all_digits(d) {
                } else {
                    lemma_digits_value_grows(d, i - from + 1);
                }
            }
            return None;
        }
        assert(acc * 10 + digit <= limit) by (nonlinear_arith)
            requires
                acc <= (limit - digit) / 10,
                digit <= limit;
        acc = acc * 10 + digit;
        i += 1;
    }
    assert(d.take(i - from) =~= d);
    Some(acc)
}


/// An `i64` in decimal, as Rust's `i64::from_str` reads it.
pub open spec fn spec_parse_i64(b: Seq<u8>) -> Option<int> {
    spec_parse_int(b, 0x8000_0000_0000_0000, 0x7fff_ffff_ffff_ffff)
}

/// An `i32` in decimal, as Rust's `i32::from_str` reads it.
pub open spec fn spec_parse_i32(b: Seq<u8>) -> Option<int> {
    spec_parse_int(b, 0x8000_0000, 0x7fff_ffff)
}

/// Parses `b` as a decimal integer from `-neg_limit` to `pos_limit`.
fn parse_int(b: &[u8], neg_limit: u64, pos_limit: u64) -> (r: Option<i64>)
    requires
        neg_limit <= 0x8000_0000_0000_0000,
        pos_limit <= 0x7fff_ffff_ffff_ffff,
    ensures
        match r {
            Some(v) => spec_parse_int(b@, neg_limit as nat, pos_limit as nat) == Some(v as int),
            None => spec_parse_int(b@, neg_limit as nat, pos_limit as nat) is None,
        },
{
    if b.len() == 0 {
        return None;
    }
    let neg = b[0] == 45;
    let from: usize = if b[0] == 45 || b[0] == 43 { 1 } else { 0 };
    proof {
        if from == 1 {
            assert(b@.subrange(1, b@.len() as int) =~= b@.drop_first());
        } else {
            assert(b@.subrange(0, b@.len() as int) =~= b@);
        }
    }
    let limit = if neg { neg_limit } else { pos_limit };
    match parse_magnitude(b, from, limit) {
        None => None,
        Some(v) => if neg {
            if v == 0x8000_0000_0000_0000 {
                Some(i64::MIN)
            } else {
                Some(-(v as i64))
            }
        } else {
            Some(v as i64)
        },
    }
}

/// Parses `b` as Rust's `i64::from_str` does.
pub fn parse_i64(b: &[u8]) -> (r: Option<i64>)
    ensures
        match r {
            Some(v) => spec_parse_i64(b@) == Some(v as int),
            None => spec_parse_i64(b@) is None,
        },
{
    parse_int(b, 0x8000_0000_0000_0000, 0x7fff_ffff_ffff_ffff)
}

/// Parses `b` as Rust's `i32::from_str` does.
pub fn parse_i32(b: &[u8]) -> (r: Option<i32>)
    ensures
        match r {
            Some(v) => spec_parse_i32(b@) == Some(v as int),
            None => spec_parse_i32(b@) is None,
        },
{
    match parse_int(b, 0x8000_0000, 0x7fff_ffff) {
        Some(v) => Some(v as i32),
        None => None,
    }
}

/// The first index of byte `c` in `b`, or -1.
pub open spec fn spec_find(b: Seq<u8>, c: u8) -> int
    decreases b.len(),
{
    if b.len() == 0 {
        -1
    } else {
        let p = spec_find(b.drop_last(), c);
        if p >= 0 {
            p
        } else if b.last() == c {
            b.len() - 1
        } else {
            -1
        }
    }
}

/// The nine bytes that the digits after a duration's dot are read from: the
/// first nine of them, or all of them followed by zeros.
pub open spec fn spec_pad_nine(frac: Seq<u8>) -> Seq<u8> {
    if frac.len() > 9 {
        frac.take(9)
    } else {
        frac + Seq::new((9 - frac.len()) as nat, |i: int| 48u8)
    }
}

/// What a duration text stands for: seconds and nanoseconds, the nanoseconds
/// taking the sign of the seconds.
pub open spec fn spec_parse_duration(b: Seq<u8>) -> Result<(i64, i32), TimeError> {
    if b.len() == 0 || b.last() != 115u8 {
        Err(TimeError::MissingSuffix)
    } else {
        let body = b.drop_last();
        let p = spec_find(body, 46u8);
        if p < 0 {
            match spec_parse_i64(body) {
                Some(v) => Ok((v as i64, 0i32)),
                None => Err(TimeError::InvalidSeconds),
            }
        } else {
            match spec_parse_i64(body.take(p)) {
                None => Err(TimeError::InvalidSeconds),
                Some(v) => match spec_parse_i32(spec_pad_nine(body.skip(p + 1))) {
                    None => Err(TimeError::InvalidNanos),
                    Some(n) => Ok((v as i64, if v < 0 { -n } else { n } as i32)),
                },
            }
        }
    }
}

/// Where the digits after a duration's dot are cut at nine, byte nine must
/// start a character.
pub open spec fn spec_duration_cut_ok(b: Seq<u8>) -> bool {
    let body = b.drop_last();
    let p = spec_find(body, 46u8);
    let frac = body.skip(p + 1);
    !(b.len() > 0 && b.last() == 115u8 && p >= 0 && spec_parse_i64(body.take(p)) is Some && frac.len() > 9
        && 0x80 <= frac[9] <= 0xBF)
}

/// Reads the text form of a duration (see `spec_parse_duration`).
pub fn parse_duration(s: &str) -> (r: Result<(i64, i32), TimeError>)
    requires
        spec_duration_cut_ok(s.spec_bytes()),
    ensures
        r == spec_parse_duration(s.spec_bytes()),
{
    let b = s.as_bytes();
    let n = b.len();
    if n == 0 || b[n - 1] != 115 {
        return Err(TimeError::MissingSuffix);
    }
    let body = &b[0..n - 1];
    assert(body@ =~= b@.drop_last());
    let mut p: usize = 0;
    while p < body.len() && body[p] != 46
        invariant
            p <= body@.len(),
            forall|k: int| 0 <= k < p ==> body@[k] != 46u8,
        decreases body@.len() - p,
    {
        p += 1;
    }
    proof {
        lemma_find(body@, 46u8, p as int);
    }
    if p == body.len() {
        return match parse_i64(body) {
            Some(v) => Ok((v, 0)),
            None => Err(TimeError::InvalidSeconds),
        };
    }
    let sec = &body[0..p];
    assert(sec@ =~= body@.take(p as int));
    let seconds = match parse_i64(sec) {
        Some(v) => v,
        None => {
            return Err(TimeError::InvalidSeconds);
        },
    };
    let frac = &body[p + 1..body.len()];
    assert(frac@ =~= body@.skip(p + 1));
    let mut padded: Vec<u8> = Vec::new();
    let mut k: usize = 0;
    while k < 9
        invariant
            k <= 9,
            padded@ == spec_pad_nine(frac@).take(k as int),
        decreases 9 - k,
    {
        if k < frac.len() {
            padded.push(frac[k]);
        } else {
            padded.push(48);
        }
        proof {
            assert(spec_pad_nine(frac@).take(k + 1) =~= spec_pad_nine(frac@).take(k as int).push(spec_pad_nine(frac@)[k as int]));
        }
        k += 1;
    }
    assert(spec_pad_nine(frac@).take(9) =~= spec_pad_nine(frac@));
    let mut nanos = match parse_i32(padded.as_slice()) {
        Some(v) => v,
        None => {
            return Err(TimeError::InvalidNanos);
        },
    };
    proof {
        lemma_nine_bytes_bound(padded@);
    }
    if seconds < 0 {
        nanos = -nanos;
    }
    Ok((seconds, nanos))
}

proof fn lemma_find(b: Seq<u8>, c: u8, p: int)
    requires
        0 <= p <= b.len(),
        forall|k: int| 0 <= k < p ==> b[k] != c,
        p < b.len() ==> b[p] == c,
    ensures
        spec_find(b, c) == if p < b.len() { p } else { -1 },
    decreases b.len(),
{
    if b.len() > 0 {
        if p < b.len() {
            if p < b.len() - 1 {
                lemma_find(b.drop_last(), c, p);
            } else {
                lemma_find(b.drop_last(), c, p);
            }
        } else {
            lemma_find(b.drop_last(), c, p - 1);
        }
    }
}

/// Nine bytes read as an `i32` lie strictly between `i32::MIN` and `i32::MAX`.
proof fn lemma_nine_bytes_bound(b: Seq<u8>)
    requires
        b.len() == 9,
        spec_parse_i32(b) is Some,
    ensures
        -999_999_999 <= spec_parse_i32(b)->Some_0 <= 999_999_999,
{
    let digits = if b[0] == 45u8 || b[0] == 43u8 {
        b.drop_first()
    } else {
        b
    };
    lemma_digits_bound(digits);
    reveal_with_fuel(spec_pow10, 10);
    assert(spec_pow10(9) == 1_000_000_000);
    assert(spec_pow10(8) == 100_000_000);
}

proof fn lemma_digits_bound(d: Seq<u8>)
    requires
        spec_all_digits(d),
    ensures
        spec_digits_value(d) < spec_pow10(d.len()),
    decreases d.len(),
{
    if d.len() > 0 {
        lemma_digits_bound(d.drop_last());
        assert(spec_all_digits(d.drop_last()));
        assert(d.last() == d[d.len() - 1]);
    }
    reveal_with_fuel(spec_pow10, 10);
}


// ----- timestamps, through the `time` crate -----

/// The RFC 3339 text that the `time` crate writes for the UTC instant this
/// many nanoseconds after the Unix epoch.
pub uninterp spec fn spec_rfc3339_format(nanos_since_epoch: int) -> Seq<char>;

/// What the `time` crate reads from an RFC 3339 text: the seconds since the
/// Unix epoch and the nanoseconds within the second, or nothing where the
/// text is not RFC 3339.
pub uninterp spec fn spec_rfc3339_parse(text: Seq<char>) -> Option<(i64, i32)>;

/// The first nanosecond of year 0 and the last one of year 9999.
pub open spec fn spec_year_0_start() -> int {
    -62167219200 * 1_000_000_000
}

pub open spec fn spec_year_9999_end() -> int {
    253402300799int * 1_000_000_000 + 999_999_999
}

/// Writes the UTC instant `nanos` nanoseconds after the epoch in RFC 3339,
/// with `time::OffsetDateTime::from_unix_timestamp_nanos` and
/// `OffsetDateTime::format` with `Rfc3339`. The first fails outside years
/// -9999 to 9999 and the second outside years 0 to 9999; the text is named,
/// not stated.
#[verifier::external_body]
fn rfc3339_format(nanos: i128) -> (r: Option<String>)
    ensures
        r is Some <==> spec_year_0_start() <= nanos <= spec_year_9999_end(),
        r matches Some(s) ==> s@ == spec_rfc3339_format(nanos as int),
{
    match time::OffsetDateTime::from_unix_timestamp_nanos(nanos) {
        Ok(dt) => match dt.format(&time::format_description::well_known::Rfc3339) {
            Ok(s) => Some(s),
            Err(_) => None,
        },
        Err(_) => None,
    }
}

/// Reads an RFC 3339 text with `time::OffsetDateTime::parse` and `Rfc3339`,
/// giving `unix_timestamp()` and `nanosecond()` of what it read; what it reads
/// is named, not stated.
#[verifier::external_body]
fn rfc3339_parse(s: &str) -> (r: Option<(i64, i32)>)
    ensures
        r == spec_rfc3339_parse(s@),
{
    match time::OffsetDateTime::parse(s, &time::format_description::well_known::Rfc3339) {
        Ok(dt) => Some((dt.unix_timestamp(), dt.nanosecond() as i32)),
        Err(_) => None,
    }
}

/// The RFC 3339 text of a timestamp in years 1 to 9999.
pub fn format_timestamp(seconds: i64, nanos: i32) -> (r: Result<String, TimeError>)
    ensures
        match spec_validate_timestamp(seconds, nanos) {
            Err(e) => r == Err::<String, TimeError>(e),
            Ok(_) => r matches Ok(s) && s@ == spec_rfc3339_format(seconds * 1_000_000_000 + nanos),
        },
{
    match validate_timestamp(seconds, nanos) {
        Err(e) => Err(e),
        Ok(_) => {
            let total: i128 = (seconds as i128) * 1_000_000_000 + (nanos as i128);
            match rfc3339_format(total) {
                Some(s) => Ok(s),
                None => Err(TimeError::FormatFailed),
            }
        },
    }
}

/// Reads an RFC 3339 timestamp; it must lie in years 1 to 9999.
pub fn parse_timestamp(s: &str) -> (r: Result<(i64, i32), TimeError>)
    ensures
        match spec_rfc3339_parse(s@) {
            None => r == Err::<(i64, i32), TimeError>(TimeError::InvalidTimestamp),
            Some((sec, n)) => match spec_validate_timestamp(sec, n) {
                Err(e) => r == Err::<(i64, i32), TimeError>(e),
                Ok(_) => r == Ok::<(i64, i32), TimeError>((sec, n)),
            },
        },
{
    match rfc3339_parse(s) {
        None => Err(TimeError::InvalidTimestamp),
        Some((sec, n)) => match validate_timestamp(sec, n) {
            Err(e) => Err(e),
            Ok(_) => Ok((sec, n)),
        },
    }
}

} // verus!

verus! {

/// Decimal text is digits only, and reads back as its number.
proof fn lemma_decimal_value(v: nat)
    ensures
        spec_decimal(v).len() >= 1,
        spec_all_digits(spec_decimal(v)),
        spec_digits_value(spec_decimal(v)) == v,
    decreases v,
{
    if v >= 10 {
        lemma_decimal_value(v / 10);
        let d = spec_decimal(v / 10);
        let e = spec_decimal(v);
        assert(e == d.push((48 + v % 10) as u8));
        assert(e.drop_last() =~= d);
        assert(e.last() == (48 + v % 10) as u8);
        vstd::arithmetic::div_mod::lemma_fundamental_div_mod(v as int, 10);
        assert(spec_digits_value(e) == spec_digits_value(d) * 10 + (e.last() - 48) as nat);
        assert forall|i: int| 0 <= i < e.len() implies 48 <= #[trigger] e[i] <= 57 by {
            if i < d.len() {
                assert(e[i] == d[i]);
            }
        }
    } else {
        let e = spec_decimal(v);
        assert(e.drop_last() =~= Seq::<u8>::empty());
        assert(spec_digits_value(Seq::<u8>::empty()) == 0);
        assert(spec_digits_value(e) == spec_digits_value(e.drop_last()) * 10 + (e.last() - 48) as nat);
    }
}

/// A byte string without `c` has no `c` to find.
proof fn lemma_find_none(b: Seq<u8>, c: u8)
    requires
        forall|i: int| 0 <= i < b.len() ==> b[i] != c,
    ensures
        spec_find(b, c) == -1,
    decreases b.len(),
{
    if b.len() > 0 {
        lemma_find_none(b.drop_last(), c);
    }
}

/// The first `c` of `a + b`, where `a` has none and `b` starts with one.
proof fn lemma_find_after(a: Seq<u8>, b: Seq<u8>, c: u8)
    requires
        forall|i: int| 0 <= i < a.len() ==> a[i] != c,
        b.len() > 0,
        b[0] == c,
    ensures
        spec_find(a + b, c) == a.len(),
    decreases b.len(),
{
    if b.len() == 1 {
        assert((a + b).drop_last() =~= a);
        lemma_find_none(a, c);
    } else {
        assert((a + b).drop_last() =~= a + b.drop_last());
        lemma_find_after(a, b.drop_last(), c);
    }
}

/// The first `k` of nine digits read as the number's leading part.
proof fn lemma_nine_prefix(r: nat, k: nat)
    requires
        r < 1_000_000_000,
        k <= 9,
    ensures
        spec_all_digits(spec_nine_digits(r).take(k as int)),
        spec_digits_value(spec_nine_digits(r).take(k as int)) == r / spec_pow10((9 - k) as nat),
    decreases k,
{
    reveal_with_fuel(spec_pow10, 10);
    let s = spec_nine_digits(r);
    if k == 0 {
        assert(spec_pow10(9) == 1_000_000_000);
        assert(s.take(0) =~= Seq::<u8>::empty());
        assert(spec_digits_value(Seq::<u8>::empty()) == 0);
        assert(r / 1_000_000_000 == 0);
    } else {
        lemma_nine_prefix(r, (k - 1) as nat);
        let p = spec_pow10((9 - k) as nat);
        assert(p >= 1) by {
            lemma_pow10_pos((9 - k) as nat);
        }
        assert(spec_pow10((9 - (k - 1)) as nat) == 10 * p);
        assert(s.take(k as int).drop_last() =~= s.take(k - 1));
        let x = r / p;
        vstd::arithmetic::div_mod::lemma_div_denominator(r as int, p as int, 10);
        assert(r / (10 * p) == x / 10) by {
            assert(p * 10 == 10 * p);
        }
        vstd::arithmetic::div_mod::lemma_fundamental_div_mod(x as int, 10);
        assert(s[k - 1] == (48 + x % 10) as u8);
        assert(0 <= x % 10 < 10);
        let tk = s.take(k as int);
        assert(tk.last() == s[k - 1]);
        assert(spec_digits_value(tk) == spec_digits_value(tk.drop_last()) * 10 + (tk.last() - 48) as nat);
        assert(spec_digits_value(tk) == (x / 10) * 10 + x % 10);
        assert forall|i: int| 0 <= i < tk.len() implies 48 <= #[trigger] tk[i] <= 57 by {
            if i < k - 1 {
                assert(tk[i] == s.take(k - 1)[i]);
            }
        }
    }
}

proof fn lemma_pow10_pos(e: nat)
    ensures
        spec_pow10(e) >= 1,
    decreases e,
{
    if e > 0 {
        lemma_pow10_pos((e - 1) as nat);
    }
}

/// Trimming trailing zero digits keeps a prefix and takes off only zeros.
proof fn lemma_trim_prefix(s: Seq<u8>)
    ensures
        spec_trim_zeros(s).len() <= s.len(),
        spec_trim_zeros(s) == s.take(spec_trim_zeros(s).len() as int),
        forall|i: int| spec_trim_zeros(s).len() <= i < s.len() ==> s[i] == 48u8,
    decreases s.len(),
{
    if s.len() > 0 && s.last() == 48u8 {
        lemma_trim_prefix(s.drop_last());
        let t = spec_trim_zeros(s);
        assert(t == spec_trim_zeros(s.drop_last()));
        assert(s.drop_last().take(t.len() as int) =~= s.take(t.len() as int));
        assert forall|i: int| t.len() <= i < s.len() implies s[i] == 48u8 by {
            if i < s.len() - 1 {
                assert(s.drop_last()[i] == s[i]);
            }
        }
    } else {
        assert(s.take(s.len() as int) =~= s);
    }
}

/// Padding the trimmed nine digits gives them back.
proof fn lemma_pad_trim_nine(r: nat)
    ensures
        spec_pad_nine(spec_trim_zeros(spec_nine_digits(r))) == spec_nine_digits(r),
{
    let s = spec_nine_digits(r);
    lemma_trim_prefix(s);
    let t = spec_trim_zeros(s);
    assert(spec_pad_nine(t) =~= s);
}

/// Signed decimal text reads back as its number.
proof fn lemma_parse_signed(neg: bool, q: nat)
    requires
        q <= 0x7fff_ffff_ffff_ffff,
        neg ==> q > 0,
    ensures
        spec_parse_i64(if neg { seq![45u8] } else { Seq::<u8>::empty() } + spec_decimal(q))
            == Some(if neg { -q } else { q as int }),
{
    lemma_decimal_value(q);
    let d = spec_decimal(q);
    let b = if neg { seq![45u8] } else { Seq::<u8>::empty() } + d;
    if neg {
        assert(b.drop_first() =~= d);
    } else {
        assert(b =~= d);
        assert(48 <= d[0] <= 57);
    }
}

/// The text of a duration with nanoseconds reads back as that duration.
#[verifier::rlimit(40)]
proof fn lemma_duration_frac_roundtrip(seconds: i64, nanos: i32)
    requires
        spec_validate_duration(seconds, nanos) is Ok,
        nanos != 0,
        !(seconds == 0 && nanos < 0),
    ensures
        spec_format_duration(seconds, nanos) matches Ok(text) && spec_parse_duration(text) == Ok::<(i64, i32), TimeError>((seconds, nanos)),
{
    let text = spec_format_duration(seconds, nanos)->Ok_0;
    let total = seconds * 1_000_000_000 + nanos;
    let abs: int = if total < 0 { -total } else { total };
    let q = abs / 1_000_000_000;
    let r = abs % 1_000_000_000;
    let sabs: int = if seconds < 0 { -seconds } else { seconds as int };
    let nabs: int = if nanos < 0 { -nanos } else { nanos as int };
    assert(total < 0 <==> seconds < 0);
    assert(abs == sabs * 1_000_000_000 + nabs);
    vstd::arithmetic::div_mod::lemma_fundamental_div_mod_converse_div(abs, 1_000_000_000, sabs, nabs);
    vstd::arithmetic::div_mod::lemma_fundamental_div_mod_converse_mod(abs, 1_000_000_000, sabs, nabs);
    assert(q == sabs && r == nabs);
    let sign = if total < 0 { seq![45u8] } else { Seq::<u8>::empty() };
    let head = sign + spec_decimal(q as nat);
    let frac = spec_trim_zeros(spec_nine_digits(r as nat));
    let body = head + seq![46u8] + frac;
    assert(text.drop_last() =~= body);
    lemma_decimal_value(q as nat);
    assert forall|i: int| 0 <= i < head.len() implies head[i] != 46u8 by {
        if sign.len() > 0 && i > 0 {
            assert(head[i] == spec_decimal(q as nat)[i - 1]);
        } else if sign.len() == 0 {
            assert(head[i] == spec_decimal(q as nat)[i]);
        }
    }
    lemma_find_after(head, seq![46u8] + frac, 46u8);
    assert(body =~= head + (seq![46u8] + frac));
    assert(body.take(head.len() as int) =~= head);
    assert(body.skip((head.len() + 1) as int) =~= frac);
    lemma_parse_signed(total < 0, q as nat);
    lemma_pad_trim_nine(r as nat);
    lemma_nine_prefix(r as nat, 9);
    reveal_with_fuel(spec_pow10, 2);
    let nine = spec_nine_digits(r as nat);
    assert(nine.take(9) =~= nine);
    assert(48 <= nine[0] <= 57);
}

/// A valid duration's text reads back as the same duration, except a
/// negative duration of less than a second, whose sign its text keeps but
/// whose reading gives to the seconds, which are zero.
pub proof fn lemma_duration_text_roundtrip(seconds: i64, nanos: i32)
    requires
        spec_validate_duration(seconds, nanos) is Ok,
        !(seconds == 0 && nanos < 0),
    ensures
        spec_format_duration(seconds, nanos) matches Ok(text) && spec_parse_duration(text) == Ok::<(i64, i32), TimeError>((seconds, nanos)),
{
    let text = spec_format_duration(seconds, nanos)->Ok_0;
    if seconds == 0 && nanos == 0 {
        assert(text.drop_last() =~= seq![48u8]);
        lemma_find_none(seq![48u8], 46u8);
        lemma_parse_signed(false, 0);
        assert(Seq::<u8>::empty() + spec_decimal(0) =~= seq![48u8]);
    } else if nanos == 0 {
        let body = spec_signed_decimal(seconds as int);
        assert(text.drop_last() =~= body);
        let q: nat = if seconds < 0 { (-seconds) as nat } else { seconds as nat };
        lemma_decimal_value(q);
        assert forall|i: int| 0 <= i < body.len() implies body[i] != 46u8 by {
            if seconds < 0 && i > 0 {
                assert(body[i] == spec_decimal(q)[i - 1]);
            }
        }
        lemma_find_none(body, 46u8);
        lemma_parse_signed(seconds < 0, q);
        assert(body =~= if seconds < 0 { seq![45u8] } else { Seq::<u8>::empty() } + spec_decimal(q));
    } else {
        lemma_duration_frac_roundtrip(seconds, nanos);
    }
}
} // verus!

verus! {

/// Signed decimal text reads back as its number, where the number lies
/// within the limits read with.
pub proof fn lemma_signed_decimal_parses(v: int, neg_limit: nat, pos_limit: nat)
    requires
        -neg_limit <= v <= pos_limit,
    ensures
        spec_parse_int(spec_signed_decimal(v), neg_limit, pos_limit) == Some(v),
{
    let q: nat = if v < 0 { (-v) as nat } else { v as nat };
    lemma_decimal_value(q);
    let d = spec_decimal(q);
    let b = spec_signed_decimal(v);
    if v < 0 {
        assert(b.drop_first() =~= d);
    } else {
        assert(b =~= d);
        assert(48 <= d[0] <= 57);
    }
}

/// Decimal text reads back as its number as an `i64`, and as an `i32` where
/// it fits.
pub proof fn lemma_signed_decimal_parses_i64(v: i64)
    ensures
        spec_parse_i64(spec_signed_decimal(v as int)) == Some(v as int),
        i32::MIN <= v <= i32::MAX ==> spec_parse_i32(spec_signed_decimal(v as int)) == Some(v as int),
{
    lemma_signed_decimal_parses(v as int, 0x8000_0000_0000_0000, 0x7fff_ffff_ffff_ffff);
    if i32::MIN <= v <= i32::MAX {
        lemma_signed_decimal_parses(v as int, 0x8000_0000, 0x7fff_ffff);
    }
}

/// Unsigned decimal text is digits only and reads back as its number.
pub proof fn lemma_decimal_digits(v: nat)
    ensures
        spec_decimal(v).len() >= 1,
        spec_all_digits(spec_decimal(v)),
        spec_digits_value(spec_decimal(v)) == v,
        48 <= spec_decimal(v)[0] <= 57,
{
    lemma_decimal_value(v);
}

} // verus!
