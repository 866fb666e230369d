//! Byte ranges written as `<start>..<end>` or `<start>+<size>`, each number
//! with an optional unit (`K`, `Ki`, `M`, `Mi`, `G`, `Gi`).

use crate::format::DOT;
use crate::offset::{factor, ByteOffset, Magnitude};
use vstd::prelude::*;
use vstd::string::StringSliceAdditionalSpecFns;

verus! {

/// Why a range or an offset could not be read.
#[derive(Debug, Clone, Copy, PartialEq, Eq)]
pub enum RangeError {
    /// No number where one is needed, or neither `..` nor `+`.
    Malformed,
    /// A number followed by something that is not a unit.
    UnknownUnit,
    /// A number beyond what 64 bits hold.
    TooLarge,
    /// An end before the start.
    EndBeforeStart,
}

/// A range of bytes: where it starts and how many bytes it spans.
#[derive(Debug, Clone, Copy, PartialEq, Eq)]
pub struct Range {
    pub start: ByteOffset,
    pub size: ByteOffset,
}

pub open spec fn is_digit(b: u8) -> bool {
    0x30 <= b <= 0x39
}

/// How many digits `s` starts with.
pub open spec fn digit_run(s: Seq<u8>) -> nat
    decreases s.len(),
{
    if s.len() == 0 || !is_digit(s[0]) { 0 } else { 1 + digit_run(s.drop_first()) }
}

/// The decimal number that the digits `s` write.
pub open spec fn digits_value(s: Seq<u8>) -> nat
    decreases s.len(),
{
    if s.len() == 0 { 0 } else { digits_value(s.drop_last()) * 10 + (s.last() - 0x30) as nat }
}

/// The unit that `u` names, if any; nothing names the plain unit.
pub open spec fn unit_of(u: Seq<u8>) -> Option<Magnitude> {
    if u.len() == 0 {
        Some(Magnitude::Unit)
    } else if u.len() == 1 {
        if u[0] == 0x4B { Some(Magnitude::K)
        } else if u[0] == 0x4D { Some(Magnitude::M)
        } else if u[0] == 0x47 { Some(Magnitude::G)
        } else { None }
    } else if u.len() == 2 && u[1] == 0x69 {
        if u[0] == 0x4B { Some(Magnitude::Ki)
        } else if u[0] == 0x4D { Some(Magnitude::Mi)
        } else if u[0] == 0x47 { Some(Magnitude::Gi)
        } else { None }
    } else {
        None
    }
}

/// The number of bytes that `s` writes: digits, then an optional unit.
pub open spec fn offset_value(s: Seq<u8>) -> Result<nat, RangeError> {
    let k = digit_run(s);
    if k == 0 {
        Err(RangeError::Malformed)
    } else {
        match unit_of(s.skip(k as int)) {
            None => Err(RangeError::UnknownUnit),
            Some(m) => {
                let v = digits_value(s.take(k as int)) * factor(m);
                if v > u64::MAX { Err(RangeError::TooLarge) } else { Ok(v) }
            },
        }
    }
}

/// The index of the first `c` in `s`, or -1.
pub open spec fn first_index_of(s: Seq<u8>, c: u8) -> int
    decreases s.len(),
{
    if s.len() == 0 {
        -1
    } else if s[0] == c {
        0
    } else {
        let i = first_index_of(s.drop_first(), c);
        if i < 0 { -1 } else { i + 1 }
    }
}

pub const PLUS: u8 = 0x2B;

/// Start and size that `s` writes. At its first `.` it must read `..`, and
/// is then `start..end` with the end excluded; else it is `start+size`.
pub open spec fn range_value(s: Seq<u8>) -> Result<(nat, nat), RangeError> {
    let d = first_index_of(s, DOT);
    let p = first_index_of(s, PLUS);
    if d >= 0 {
        if d + 1 < s.len() && s[d + 1] == DOT {
            match offset_value(s.take(d)) {
                Err(e) => Err(e),
                Ok(a) => match offset_value(s.skip(d + 2)) {
                    Err(e) => Err(e),
                    Ok(b) => if b < a { Err(RangeError::EndBeforeStart) } else { Ok((a, (b - a) as nat)) },
                },
            }
        } else {
            Err(RangeError::Malformed)
        }
    } else if p >= 0 {
        match offset_value(s.take(p)) {
            Err(e) => Err(e),
            Ok(a) => match offset_value(s.skip(p + 1)) {
                Err(e) => Err(e),
                Ok(b) => Ok((a, b)),
            },
        }
    } else {
        Err(RangeError::Malformed)
    }
}

proof fn lemma_digit_run(s: Seq<u8>, k: int)
    requires
        0 <= k <= s.len(),
        forall|i: int| 0 <= i < k ==> is_digit(#[trigger] s[i]),
        k == s.len() || !is_digit(s[k]),
    ensures
        digit_run(s) == k,
    decreases k,
{
    if k > 0 {
        let t = s.drop_first();
        assert forall|i: int| 0 <= i < k - 1 implies is_digit(#[trigger] t[i]) by {
            assert(t[i] == s[i + 1]);
        }
        if k - 1 < t.len() {
            assert(t[k - 1] == s[k]);
        }
        lemma_digit_run(t, k - 1);
    }
}

proof fn lemma_digits_grow(s: Seq<u8>, i: int, j: int)
    requires
        0 <= i <= j <= s.len(),
        forall|t: int| 0 <= t < s.len() ==> is_digit(#[trigger] s[t]),
    ensures
        digits_value(s.take(i)) <= digits_value(s.take(j)),
    decreases j - i,
{
    if i < j {
        lemma_digits_grow(s, i, j - 1);
        assert(s.take(j).drop_last() =~= s.take(j - 1));
    }
}

proof fn lemma_index_after(s: Seq<u8>, c: u8, k: int)
    requires
        -1 <= k < s.len(),
        k >= 0 ==> s[k] == c,
        forall|j: int| 0 <= j < (if k < 0 { s.len() as int } else { k }) ==> #[trigger] s[j] != c,
    ensures
        first_index_of(s, c) == k,
    decreases s.len(),
{
    if s.len() > 0 && k != 0 {
        let t = s.drop_first();
        let k2 = if k < 0 { -1 } else { k - 1 };
        assert forall|j: int| 0 <= j < (if k2 < 0 { t.len() as int } else { k2 }) implies #[trigger] t[j] != c by {
            assert(t[j] == s[j + 1]);
        }
        lemma_index_after(t, c, k2);
        assert(s[0] != c);
    }
}

/// The index of the first `c` in `s`, or its length.
fn find_first(s: &[u8], c: u8) -> (r: usize)
    ensures
        r == s@.len() ==> first_index_of(s@, c) == -1,
        r < s@.len() ==> first_index_of(s@, c) == r,
        r <= s@.len(),
{
    let mut i: usize = 0;
    while i < s.len()
        invariant
            i <= s@.len(),
            forall|j: int| 0 <= j < i ==> #[trigger] s@[j] != c,
        decreases s@.len() - i,
    {
        if s[i] == c {
            proof {
                lemma_index_after(s@, c, i as int);
            }
            return i;
        }
        i = i + 1;
    }
    proof {
        lemma_index_after(s@, c, -1);
    }
    i
}

/// Reads the number of bytes written in `s[lo..hi]`.
fn parse_offset_in(s: &[u8], lo: usize, hi: usize) -> (r: Result<u64, RangeError>)
    requires
        lo <= hi <= s@.len(),
    ensures
        match r {
            Ok(v) => offset_value(s@.subrange(lo as int, hi as int)) == Ok::<nat, RangeError>(v as nat),
            Err(e) => offset_value(s@.subrange(lo as int, hi as int)) == Err::<nat, RangeError>(e),
        },
{
    let ghost t = s@.subrange(lo as int, hi as int);
    let mut i = lo;
    while i < hi && s[i] >= 0x30 && s[i] <= 0x39
        invariant
            lo <= i <= hi <= s@.len(),
            t == s@.subrange(lo as int, hi as int),
            forall|j: int| lo <= j < i ==> is_digit(#[trigger] s@[j]),
        decreases hi - i,
    {
        i = i + 1;
    }
    let k = i - lo;
    proof {
        assert forall|j: int| 0 <= j < k implies is_digit(#[trigger] t[j]) by {
            assert(t[j] == s@[lo + j]);
        }
        if k < t.len() {
            assert(t[k as int] == s@[i as int]);
        }
        lemma_digit_run(t, k as int);
    }
    if k == 0 {
        return Err(RangeError::Malformed);
    }
    let ghost digits = t.take(k as int);
    let ghost u = t.skip(k as int);
    let ulen = hi - i;
    proof {
        assert(u.len() == ulen);
        if ulen >= 1 {
            assert(u[0] == s@[i as int]);
        }
        if ulen >= 2 {
            assert(u[1] == s@[i + 1]);
        }
    }
    let unit = if ulen == 0 {
        Some(Magnitude::Unit)
    } else if ulen == 1 {
        if s[i] == 0x4B { Some(Magnitude::K)
        } else if s[i] == 0x4D { Some(Magnitude::M)
        } else if s[i] == 0x47 { Some(Magnitude::G)
        } else { None }
    } else if ulen == 2 && s[i + 1] == 0x69 {
        if s[i] == 0x4B { Some(Magnitude::Ki)
        } else if s[i] == 0x4D { Some(Magnitude::Mi)
        } else if s[i] == 0x47 { Some(Magnitude::Gi)
        } else { None }
    } else {
        None
    };
    assert(unit == unit_of(u));
    let m = match unit {
        None => {
            return Err(RangeError::UnknownUnit);
        },
        Some(m) => m,
    };
    let mut v: u64 = 0;
    let mut j = lo;
    assert(digits.take(0) =~= Seq::<u8>::empty());
    while j < i
        invariant
            lo <= j <= i,
            k == i - lo,
            digits == t.take(k as int),
            t == s@.subrange(lo as int, hi as int),
            i <= hi <= s@.len(),
            forall|q: int| 0 <= q < digits.len() ==> is_digit(#[trigger] digits[q]),
            v as nat == digits_value(digits.take(j - lo)),
            digit_run(t) == k,
            k > 0,
            unit_of(t.skip(k as int)) == Some(m),
        decreases i - j,
    {
        proof {
            assert(digits[j - lo] == s@[j as int]);
            assert(is_digit(digits[j - lo]));
        }
        let d = (s[j] - 0x30) as u64;
        proof {
            let x = digits.take(j - lo + 1);
            assert(x.drop_last() =~= digits.take(j - lo));
            assert(x.last() == s@[j as int]);
            assert(digits_value(x) == v * 10 + d);
        }
        if v > (u64::MAX - d) / 10 {
            proof {
                assert(v * 10 + d > u64::MAX) by (nonlinear_arith)
                    requires v > (u64::MAX - d) / 10, d <= 9;
                lemma_digits_grow(digits, j - lo + 1, k as int);
                assert(digits.take(k as int) =~= digits);
                assert(digits_value(digits) > u64::MAX);
                assert(factor(m) >= 1);
                assert(digits_value(digits) * factor(m) >= digits_value(digits)) by (nonlinear_arith)
                    requires factor(m) >= 1;
            }
            return Err(RangeError::TooLarge);
        }
        proof {
            assert(v * 10 + d <= u64::MAX) by (nonlinear_arith)
                requires v <= (u64::MAX - d) / 10, d <= 9;
        }
        v = v * 10 + d;
        j = j + 1;
    }
    assert(digits.take(k as int) =~= digits);
    let f = m.factor();
    if v > u64::MAX / f {
        proof {
            assert(v * f > u64::MAX) by (nonlinear_arith)
                requires v > u64::MAX / f, f >= 1;
        }
        return Err(RangeError::TooLarge);
    }
    proof {
        assert(v * f <= u64::MAX) by (nonlinear_arith)
            requires v <= u64::MAX / f, f >= 1;
    }
    Ok(v * f)
}

/// Reads a number of bytes: digits, then an optional unit.
pub fn parse_offset(text: &str) -> (r: Result<ByteOffset, RangeError>)
    ensures
        match r {
            Ok(o) => offset_value(text.spec_bytes()) == Ok::<nat, RangeError>(o@),
            Err(e) => offset_value(text.spec_bytes()) == Err::<nat, RangeError>(e),
        },
{
    let b = text.as_bytes();
    assert(b@.subrange(0, b@.len() as int) =~= b@);
    match parse_offset_in(b, 0, b.len()) {
        Ok(v) => Ok(ByteOffset::new(v, Magnitude::Unit)),
        Err(e) => Err(e),
    }
}

impl Range {
    /// Reads `<start>..<end>` (the end excluded) or `<start>+<size>`.
    pub fn parse(text: &str) -> (r: Result<Range, RangeError>)
        ensures
            match r {
                Ok(g) => range_value(text.spec_bytes()) == Ok::<(nat, nat), RangeError>((g.start@, g.size@)),
                Err(e) => range_value(text.spec_bytes()) == Err::<(nat, nat), RangeError>(e),
            },
    {
        let b = text.as_bytes();
        let ghost s = b@;
        let n = b.len();
        let d = find_first(b, DOT);
        let p = find_first(b, PLUS);
        assert(s.subrange(0, d as int) =~= s.take(d as int));
        assert(s.subrange(0, p as int) =~= s.take(p as int));
        if d < n {
            if d + 1 < n && b[d + 1] == DOT {
                assert(s.subrange(d + 2, n as int) =~= s.skip(d + 2));
                let a = match parse_offset_in(b, 0, d) {
                    Ok(a) => a,
                    Err(e) => {
                        return Err(e);
                    },
                };
                let e = match parse_offset_in(b, d + 2, n) {
                    Ok(e) => e,
                    Err(e) => {
                        return Err(e);
                    },
                };
                if e < a {
                    return Err(RangeError::EndBeforeStart);
                }
                Ok(Range { start: ByteOffset::new(a, Magnitude::Unit), size: ByteOffset::new(e - a, Magnitude::Unit) })
            } else {
                Err(RangeError::Malformed)
            }
        } else if p < n {
            assert(s.subrange(p + 1, n as int) =~= s.skip(p + 1));
            let a = match parse_offset_in(b, 0, p) {
                Ok(a) => a,
                Err(e) => {
                    return Err(e);
                },
            };
            let z = match parse_offset_in(b, p + 1, n) {
                Ok(z) => z,
                Err(e) => {
                    return Err(e);
                },
            };
            Ok(Range { start: ByteOffset::new(a, Magnitude::Unit), size: ByteOffset::new(z, Magnitude::Unit) })
        } else {
            Err(RangeError::Malformed)
        }
    }
}

} // verus!
