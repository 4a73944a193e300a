//! Arguments of user programs: package specs, numbers and memory sizes.
use vstd::prelude::*;

verus! {

/// Version constraint operators.
pub const VEXACT: u8 = 0;

pub const VATLEAST: u8 = 1;

/// Index of the first `=` or `>` at or after `i`; the length if there is none.
pub open spec fn mark(tok: Seq<u8>, i: int) -> int
    decreases tok.len() - i,
{
    if i >= tok.len() || tok[i] == 0x3d || tok[i] == 0x3e {
        i
    } else {
        mark(tok, i + 1)
    }
}

/// Name, and version with operator, of `foo`, `foo=1.0` or `foo>=1.0`. A `>`
/// without `=` leaves the name alone.
pub open spec fn vreq(tok: Seq<u8>) -> (Seq<u8>, Option<(Seq<u8>, u8)>) {
    let e = mark(tok, 0);
    if e >= tok.len() {
        (tok, None)
    } else if tok[e] == 0x3e {
        if e + 1 >= tok.len() || tok[e + 1] != 0x3d {
            (tok.take(e), None)
        } else {
            (tok.take(e), Some((tok.skip(e + 2), VATLEAST)))
        }
    } else {
        (tok.take(e), Some((tok.skip(e + 1), VEXACT)))
    }
}

pub open spec fn vreq_view(r: (&[u8], Option<(&[u8], u8)>)) -> (Seq<u8>, Option<(Seq<u8>, u8)>) {
    (
        r.0@,
        match r.1 {
            Some((v, op)) => Some((v@, op)),
            None => None,
        },
    )
}

/// Splits a package spec into name and version constraint.
pub fn split_vreq(tok: &[u8]) -> (r: (&[u8], Option<(&[u8], u8)>))
    ensures
        vreq_view(r) == vreq(tok@),
{
    let n: usize = tok.len();
    let mut e: usize = 0;
    while e < n && tok[e] != 0x3d && tok[e] != 0x3e
        invariant
            n == tok@.len(),
            e <= n,
            mark(tok@, 0) == mark(tok@, e as int),
        decreases n - e,
    {
        e += 1;
    }
    if e >= n {
        return (tok, None);
    }
    let name = vstd::slice::slice_subrange(tok, 0, e);
    if tok[e] == 0x3e {
        if e + 1 >= n || tok[e + 1] != 0x3d {
            return (name, None);
        }
        return (name, Some((vstd::slice::slice_subrange(tok, e + 2, n), VATLEAST)));
    }
    (name, Some((vstd::slice::slice_subrange(tok, e + 1, n), VEXACT)))
}

pub open spec fn is_digit(c: u8) -> bool {
    0x30 <= c <= 0x39
}

/// Every byte is a decimal digit.
pub open spec fn all_digits(s: Seq<u8>) -> bool {
    forall|i: int| 0 <= i < s.len() ==> is_digit(#[trigger] s[i])
}

/// The number that decimal digits stand for.
pub open spec fn dec_value(s: Seq<u8>) -> int
    decreases s.len(),
{
    if s.len() == 0 {
        0
    } else {
        dec_value(s.drop_last()) * 10 + (s.last() - 0x30)
    }
}

/// A decimal number that fits, and nothing else.
pub open spec fn dec_of(s: Seq<u8>) -> Option<usize> {
    if s.len() > 0 && all_digits(s) && dec_value(s) <= usize::MAX {
        Some(dec_value(s) as usize)
    } else {
        None
    }
}

/// More digits make no smaller number.
proof fn lemma_dec_grows(s: Seq<u8>, i: int)
    requires
        all_digits(s),
        0 <= i <= s.len(),
    ensures
        0 <= dec_value(s.take(i)) <= dec_value(s),
    decreases s.len(),
{
    if i == s.len() {
        assert(s.take(i) =~= s);
        if s.len() > 0 {
            let t = s.drop_last();
            assert(all_digits(t));
            lemma_dec_grows(t, t.len() as int);
            assert(t.take(t.len() as int) =~= t);
            assert(is_digit(s[s.len() - 1]));
        }
    } else {
        let t = s.drop_last();
        assert(all_digits(t));
        lemma_dec_grows(t, i);
        assert(t.take(i) =~= s.take(i));
        assert(is_digit(s[s.len() - 1]));
    }
}

/// Strict decimal: at least one digit, nothing but digits, no overflow.
pub fn parse_dec(s: &[u8]) -> (r: Option<usize>)
    ensures
        r == dec_of(s@),
{
    let n: usize = s.len();
    if n == 0 {
        return None;
    }
    let mut v: usize = 0;
    let mut i: usize = 0;
    assert(s@.take(0) =~= Seq::empty());
    while i < n
        invariant
            n == s@.len(),
            n > 0,
            i <= n,
            all_digits(s@.take(i as int)),
            v == dec_value(s@.take(i as int)),
        decreases n - i,
    {
        let c: u8 = s[i];
        if c < 0x30 || c > 0x39 {
            assert(!is_digit(s@[i as int]));
            return None;
        }
        proof {
            let t = s@.take(i + 1);
            assert(t.drop_last() =~= s@.take(i as int));
            assert(t.last() == c);
            assert forall|j: int| 0 <= j < t.len() implies is_digit(#[trigger] t[j]) by {
                if j < i {
                    assert(is_digit(s@.take(i as int)[j]));
                }
            }
            if all_digits(s@) {
                lemma_dec_grows(s@, i + 1);
            }
        }
        v = match v.checked_mul(10) {
            Some(w) => match w.checked_add((c - 0x30) as usize) {
                Some(x) => x,
                None => {
                    return None;
                },
            },
            None => {
                return None;
            },
        };
        i += 1;
    }
    assert(s@.take(i as int) =~= s@);
    Some(v)
}

/// Length of the run of digits at the start, from `i` on.
pub open spec fn digits_end(b: Seq<u8>, i: int) -> int
    decreases b.len() - i,
{
    if i >= b.len() || !is_digit(b[i]) {
        i
    } else {
        digits_end(b, i + 1)
    }
}

/// Bytes a size suffix stands for.
pub open spec fn suffix(c: u8) -> Option<int> {
    if c == 0x4b || c == 0x6b {
        Some(1024)
    } else if c == 0x4d || c == 0x6d {
        Some(0x10_0000)
    } else if c == 0x47 || c == 0x67 {
        Some(0x4000_0000)
    } else {
        None
    }
}

/// Frames of a memory size: a bare number is frames; with a suffix it is a
/// size in bytes, rounded up. None for anything else and on overflow.
pub open spec fn mem_of(b: Seq<u8>) -> Option<usize> {
    let i = digits_end(b, 0);
    match dec_of(b.take(i)) {
        None => None,
        Some(v) => if i == b.len() {
            Some(v)
        } else {
            match suffix(b[i]) {
                Some(per) if i + 1 == b.len() && v * per + 4095 <= usize::MAX => Some(
                    ((v * per + 4095) / 4096) as usize,
                ),
                _ => None,
            }
        },
    }
}

/// Memory size to 4 KiB frames.
pub fn parse_mem(b: &[u8]) -> (r: Option<usize>)
    ensures
        r == mem_of(b@),
{
    let n: usize = b.len();
    let mut i: usize = 0;
    while i < n && b[i] >= 0x30 && b[i] <= 0x39
        invariant
            n == b@.len(),
            i <= n,
            digits_end(b@, 0) == digits_end(b@, i as int),
        decreases n - i,
    {
        i += 1;
    }
    let head = vstd::slice::slice_subrange(b, 0, i);
    assert(head@ =~= b@.take(i as int));
    let v: usize = match parse_dec(head) {
        Some(v) => v,
        None => {
            return None;
        },
    };
    if i == n {
        return Some(v);
    }
    let c: u8 = b[i];
    let per: usize = if c == 0x4b || c == 0x6b {
        1024
    } else if c == 0x4d || c == 0x6d {
        0x10_0000
    } else if c == 0x47 || c == 0x67 {
        0x4000_0000
    } else {
        return None;
    };
    if i + 1 != n {
        return None;
    }
    match v.checked_mul(per) {
        Some(bytes) => match bytes.checked_add(4095) {
            Some(x) => Some(x / 4096),
            None => None,
        },
        None => {
            assert(v * per > usize::MAX);
            None
        },
    }
}

} // verus!
