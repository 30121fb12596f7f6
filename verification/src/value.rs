//! The numeric value field: trimming surrounding whitespace, parsing a
//! non-negative 64-bit integer, and rendering one back as decimal text.
use vstd::prelude::*;

verus! {

// ---------------------------------------------------------------------------
// Whitespace trimming.
//
// Fields are UTF-8 text carried as bytes. A leading or trailing whitespace
// character is one of the Unicode `White_Space` code points; the spec
// functions below recognize their UTF-8 encodings (one, two or three bytes).
// ---------------------------------------------------------------------------

/// One-byte whitespace encodings: TAB, LF, VT, FF, CR, SPACE.
pub open spec fn ws1(b: u8) -> bool {
    b == 0x09 || b == 0x0A || b == 0x0B || b == 0x0C || b == 0x0D || b == 0x20
}

/// Two-byte whitespace encodings: U+0085 (NEL) and U+00A0 (NBSP).
pub open spec fn ws2(b0: u8, b1: u8) -> bool {
    b0 == 0xC2 && (b1 == 0x85 || b1 == 0xA0)
}

/// Three-byte whitespace encodings: U+1680, U+2000..U+200A, U+2028, U+2029,
/// U+202F, U+205F, U+3000.
pub open spec fn ws3(b0: u8, b1: u8, b2: u8) -> bool {
    (b0 == 0xE1 && b1 == 0x9A && b2 == 0x80) || (b0 == 0xE2 && b1 == 0x80 && (0x80 <= b2 && b2
        <= 0x8A || b2 == 0xA8 || b2 == 0xA9 || b2 == 0xAF)) || (b0 == 0xE2 && b1 == 0x81 && b2
        == 0x9F) || (b0 == 0xE3 && b1 == 0x80 && b2 == 0x80)
}

/// Length of the whitespace character encoding at the front of `s`, or 0.
pub open spec fn head_ws(s: Seq<u8>) -> int {
    if s.len() >= 1 && ws1(s[0]) {
        1
    } else if s.len() >= 2 && ws2(s[0], s[1]) {
        2
    } else if s.len() >= 3 && ws3(s[0], s[1], s[2]) {
        3
    } else {
        0
    }
}

/// Length of the whitespace character encoding at the back of `s`, or 0.
pub open spec fn tail_ws(s: Seq<u8>) -> int {
    if s.len() >= 1 && ws1(s[s.len() - 1]) {
        1
    } else if s.len() >= 2 && ws2(s[s.len() - 2], s[s.len() - 1]) {
        2
    } else if s.len() >= 3 && ws3(s[s.len() - 3], s[s.len() - 2], s[s.len() - 1]) {
        3
    } else {
        0
    }
}

/// `s` with every leading whitespace character removed.
pub open spec fn trim_front(s: Seq<u8>) -> Seq<u8>
    decreases s.len(),
{
    if head_ws(s) > 0 {
        trim_front(s.skip(head_ws(s)))
    } else {
        s
    }
}

/// `s` with every trailing whitespace character removed.
pub open spec fn trim_back(s: Seq<u8>) -> Seq<u8>
    decreases s.len(),
{
    if tail_ws(s) > 0 {
        trim_back(s.take(s.len() - tail_ws(s)))
    } else {
        s
    }
}

/// `s` with surrounding whitespace removed.
pub open spec fn trim_spec(s: Seq<u8>) -> Seq<u8> {
    trim_back(trim_front(s))
}

/// Removes the surrounding whitespace of a UTF-8 field.
pub fn trim_bytes(s: &Vec<u8>) -> (r: Vec<u8>)
    ensures
        r@ == trim_spec(s@),
{
    let len = s.len();
    let mut lo: usize = 0;
    proof {
        assert(s@.subrange(0, len as int) =~= s@);
    }
    loop
        invariant
            lo <= len,
            len == s@.len(),
            trim_front(s@) == trim_front(s@.subrange(lo as int, len as int)),
        ensures
            lo <= len,
            len == s@.len(),
            trim_front(s@) == s@.subrange(lo as int, len as int),
        decreases len - lo,
    {
        let ghost sub = s@.subrange(lo as int, len as int);
        let n = len - lo;
        let k: usize = if n >= 1 && {
            let b = s[lo];
            b == 0x09 || b == 0x0A || b == 0x0B || b == 0x0C || b == 0x0D || b == 0x20
        } {
            1
        } else if n >= 2 && s[lo] == 0xC2 && (s[lo + 1] == 0x85 || s[lo + 1] == 0xA0) {
            2
        } else if n >= 3 && {
            let b0 = s[lo];
            let b1 = s[lo + 1];
            let b2 = s[lo + 2];
            (b0 == 0xE1 && b1 == 0x9A && b2 == 0x80) || (b0 == 0xE2 && b1 == 0x80 && (0x80 <= b2
                && b2 <= 0x8A || b2 == 0xA8 || b2 == 0xA9 || b2 == 0xAF)) || (b0 == 0xE2 && b1
                == 0x81 && b2 == 0x9F) || (b0 == 0xE3 && b1 == 0x80 && b2 == 0x80)
        } {
            3
        } else {
            0
        };
        proof {
            assert(sub.len() == len - lo);
            if n >= 1 {
                assert(sub[0] == s@[lo as int]);
            }
            if n >= 2 {
                assert(sub[1] == s@[lo + 1]);
            }
            if n >= 3 {
                assert(sub[2] == s@[lo + 2]);
            }
            assert(head_ws(sub) == k as int);
        }
        if k == 0 {
            break ;
        }
        proof {
            assert(sub.skip(k as int) =~= s@.subrange(lo + k, len as int));
        }
        lo = lo + k;
    }
    // Leading whitespace is gone: the front-trimmed view is the remaining range.
    let mut hi: usize = len;
    loop
        invariant
            lo <= hi <= len,
            len == s@.len(),
            trim_back(s@.subrange(lo as int, len as int)) == trim_back(
                s@.subrange(lo as int, hi as int),
            ),
        ensures
            lo <= hi <= len,
            len == s@.len(),
            trim_back(s@.subrange(lo as int, len as int)) == s@.subrange(lo as int, hi as int),
        decreases hi - lo,
    {
        let ghost sub = s@.subrange(lo as int, hi as int);
        let n = hi - lo;
        let k: usize = if n >= 1 && {
            let b = s[hi - 1];
            b == 0x09 || b == 0x0A || b == 0x0B || b == 0x0C || b == 0x0D || b == 0x20
        } {
            1
        } else if n >= 2 && s[hi - 2] == 0xC2 && (s[hi - 1] == 0x85 || s[hi - 1] == 0xA0) {
            2
        } else if n >= 3 && {
            let b0 = s[hi - 3];
            let b1 = s[hi - 2];
            let b2 = s[hi - 1];
            (b0 == 0xE1 && b1 == 0x9A && b2 == 0x80) || (b0 == 0xE2 && b1 == 0x80 && (0x80 <= b2
                && b2 <= 0x8A || b2 == 0xA8 || b2 == 0xA9 || b2 == 0xAF)) || (b0 == 0xE2 && b1
                == 0x81 && b2 == 0x9F) || (b0 == 0xE3 && b1 == 0x80 && b2 == 0x80)
        } {
            3
        } else {
            0
        };
        proof {
            assert(sub.len() == hi - lo);
            if n >= 1 {
                assert(sub[sub.len() - 1] == s@[hi - 1]);
            }
            if n >= 2 {
                assert(sub[sub.len() - 2] == s@[hi - 2]);
            }
            if n >= 3 {
                assert(sub[sub.len() - 3] == s@[hi - 3]);
            }
            assert(tail_ws(sub) == k as int);
        }
        if k == 0 {
            break ;
        }
        proof {
            assert(sub.take(sub.len() - k) =~= s@.subrange(lo as int, (hi - k) as int));
        }
        hi = hi - k;
    }
    let mut r: Vec<u8> = Vec::new();
    let mut i: usize = lo;
    while i < hi
        invariant
            lo <= i <= hi <= len,
            len == s@.len(),
            r@ =~= s@.subrange(lo as int, i as int),
        decreases hi - i,
    {
        r.push(s[i]);
        proof {
            assert(r@ =~= s@.subrange(lo as int, i + 1));
        }
        i = i + 1;
    }
    proof {
        assert(trim_spec(s@) == trim_back(s@.subrange(lo as int, hi as int)));
        assert(r@ =~= s@.subrange(lo as int, hi as int));
    }
    r
}

// ---------------------------------------------------------------------------
// Parsing a non-negative 64-bit integer.
// ---------------------------------------------------------------------------

/// True when `b` is an ASCII decimal digit.
pub open spec fn is_digit(b: u8) -> bool {
    0x30 <= b && b <= 0x39
}

/// True when every byte of `s` is an ASCII decimal digit.
pub open spec fn all_digits(s: Seq<u8>) -> bool {
    forall|i: int| 0 <= i < s.len() ==> is_digit(s[i])
}

/// The number denoted by a sequence of ASCII digits, most significant first.
pub open spec fn digits_val(s: Seq<u8>) -> nat
    decreases s.len(),
{
    if s.len() == 0 {
        0
    } else {
        (digits_val(s.drop_last()) * 10 + (s.last() - 0x30)) as nat
    }
}

/// `s` without one optional leading plus sign.
pub open spec fn strip_plus(s: Seq<u8>) -> Seq<u8> {
    if s.len() > 0 && s[0] == 0x2B {
        s.drop_first()
    } else {
        s
    }
}

/// What parsing `s` as an unsigned 64-bit decimal integer yields: after an
/// optional `+`, one or more ASCII digits whose value fits in 64 bits;
/// anything else is rejected.
pub open spec fn parse_u64_spec(s: Seq<u8>) -> Option<u64> {
    let d = strip_plus(s);
    if d.len() > 0 && all_digits(d) && digits_val(d) <= u64::MAX {
        Some(digits_val(d) as u64)
    } else {
        None
    }
}

/// A digit string is worth at least as much as any of its prefixes.
proof fn lemma_digits_val_prefix(s: Seq<u8>, i: int)
    requires
        0 <= i <= s.len(),
        all_digits(s),
    ensures
        digits_val(s.take(i)) <= digits_val(s),
    decreases s.len() - i,
{
    if i < s.len() {
        lemma_digits_val_prefix(s, i + 1);
        assert(s.take(i + 1).drop_last() =~= s.take(i));
        assert(s.take(i + 1).last() == s[i]);
        assert(digits_val(s.take(i + 1)) == (digits_val(s.take(i)) * 10 + (s[i] - 0x30)) as nat);
    } else {
        assert(s.take(i) =~= s);
    }
}

/// Parses a byte string as a non-negative 64-bit decimal integer, exactly as
/// `parse_u64_spec` describes.
pub fn parse_u64(s: &Vec<u8>) -> (r: Option<u64>)
    ensures
        r == parse_u64_spec(s@),
{
    let len = s.len();
    let start: usize = if len > 0 && s[0] == 0x2B {
        1
    } else {
        0
    };
    let ghost d = strip_plus(s@);
    proof {
        assert(d =~= s@.subrange(start as int, len as int));
    }
    if len == start {
        return None;
    }
    let mut acc: u64 = 0;
    let mut i: usize = start;
    proof {
        assert(d.take(0) =~= Seq::<u8>::empty());
    }
    while i < len
        invariant
            start <= i <= len,
            len == s@.len(),
            d == strip_plus(s@),
            d =~= s@.subrange(start as int, len as int),
            forall|j: int| 0 <= j < i - start ==> is_digit(d[j]),
            acc == digits_val(d.take(i - start)),
        decreases len - i,
    {
        let b = s[i];
        proof {
            assert(0 <= i - start < d.len());
            assert(d[i - start] == s@[i as int]);
        }
        if !(0x30 <= b && b <= 0x39) {
            // A non-digit anywhere makes the whole field unparseable.
            proof {
                assert(!is_digit(d[i - start]));
                assert(!all_digits(d));
            }
            return None;
        }
        let dv: u64 = (b - 0x30) as u64;
        proof {
            assert(d.take(i - start + 1).drop_last() =~= d.take(i - start));
            assert(d.take(i - start + 1).last() == d[i - start]);
            assert(digits_val(d.take(i - start + 1)) == (digits_val(d.take(i - start)) * 10 + (d[i
                - start] - 0x30)) as nat);
        }
        let ghost stepped_val: nat = digits_val(d.take(i - start + 1));
        match acc.checked_mul(10) {
            Some(t) => {
                match t.checked_add(dv) {
                    Some(v) => {
                        proof {
                            assert(stepped_val == v);
                        }
                        acc = v;
                    },
                    None => {
                        // The value overflows 64 bits; every extension of this
                        // prefix does too, so parsing fails whatever follows.
                        proof {
                            assert(stepped_val > u64::MAX);
                            if all_digits(d) {
                                lemma_digits_val_prefix(d, i - start + 1);
                            }
                        }
                        return None;
                    },
                }
            },
            None => {
                proof {
                    assert(acc * 10 > u64::MAX);
                    assert(stepped_val > u64::MAX);
                    if all_digits(d) {
                        lemma_digits_val_prefix(d, i - start + 1);
                    }
                }
                return None;
            },
        }
        i = i + 1;
    }
    proof {
        assert(d.take(len - start) =~= d);
    }
    Some(acc)
}

// ---------------------------------------------------------------------------
// Decimal rendering of a 64-bit sum.
// ---------------------------------------------------------------------------

/// The decimal text of `n`: its digits, most significant first, with no sign
/// and no leading zero except for `n == 0` itself.
pub open spec fn dec_spec(n: nat) -> Seq<u8>
    decreases n,
{
    if n < 10 {
        seq![(0x30 + n) as u8]
    } else {
        dec_spec(n / 10).push((0x30 + n % 10) as u8)
    }
}

/// Renders a 64-bit integer as decimal text.
pub fn u64_to_dec(n: u64) -> (r: Vec<u8>)
    ensures
        r@ == dec_spec(n as nat),
{
    if n == 0 {
        let mut r: Vec<u8> = Vec::new();
        r.push(0x30);
        proof {
            assert(r@ =~= dec_spec(0));
        }
        return r;
    }
    let mut r: Vec<u8> = Vec::new();
    let mut m: u64 = n;
    proof {
        assert(dec_spec(n as nat) =~= dec_spec(n as nat) + r@);
    }
    loop
        invariant_except_break
            m >= 1,
            dec_spec(n as nat) =~= dec_spec(m as nat) + r@,
        ensures
            dec_spec(n as nat) == r@,
        decreases m,
    {
        let digit: u8 = ((m % 10) + 0x30) as u8;
        let rest = m / 10;
        let ghost old_r = r@;
        proof {
            assert(rest < m && (m >= 10 ==> rest >= 1) && (m < 10 ==> rest == 0))
                by (nonlinear_arith)
                requires
                    m >= 1,
                    rest == m / 10,
            ;
            assert((m as nat) / 10 == rest as nat);
            assert((m as nat) % 10 == (m % 10) as nat);
        }
        r.insert(0, digit);
        proof {
            if m >= 10 {
                assert(dec_spec(m as nat) == dec_spec(rest as nat).push(digit));
                assert(dec_spec(m as nat) + old_r =~= dec_spec(rest as nat) + r@);
            } else {
                assert(dec_spec(m as nat) =~= seq![digit]);
                assert(dec_spec(m as nat) + old_r =~= r@);
            }
        }
        m = rest;
        if m == 0 {
            break ;
        }
    }
    r
}

} // verus!
