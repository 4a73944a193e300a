//! Text put together from pieces.
use crate::user::fmt;
use vstd::prelude::*;
use vstd::string::StringSliceAdditionalSpecFns;

verus! {

/// Bytes of a text.
pub open spec fn b(s: &str) -> Seq<u8> {
    s.spec_bytes()
}

/// Adds bytes.
pub fn say_bytes(out: &mut Vec<u8>, s: &[u8])
    ensures
        final(out)@ == old(out)@ + s@,
{
    let mut i: usize = 0;
    assert(out@ =~= old(out)@ + s@.take(0));
    while i < s.len()
        invariant
            i <= s@.len(),
            out@ == old(out)@ + s@.take(i as int),
        decreases s@.len() - i,
    {
        out.push(s[i]);
        i += 1;
        assert(out@ =~= old(out)@ + s@.take(i as int));
    }
    assert(s@.take(i as int) =~= s@);
}

/// Adds a text.
pub fn say(out: &mut Vec<u8>, s: &str)
    ensures
        final(out)@ == old(out)@ + b(s),
{
    say_bytes(out, s.as_bytes());
}

fn digit(d: u64) -> (c: u8)
    requires
        d < 16,
    ensures
        c == fmt::digit(d as int),
{
    if d < 10 {
        0x30 + d as u8
    } else {
        0x61 + (d as u8 - 10)
    }
}

/// Adds a number to the base 10 or 16.
pub fn say_num(out: &mut Vec<u8>, v: u64, base: u64)
    requires
        base == 10 || base == 16,
    ensures
        final(out)@ == old(out)@ + fmt::digits(v as nat, base as nat),
    decreases v,
{
    if v < base {
        out.push(digit(v));
        assert(out@ =~= old(out)@ + fmt::digits(v as nat, base as nat));
    } else {
        assert(v / base < v && v % base < base) by (nonlinear_arith)
            requires
                v >= base,
                base >= 2,
        ;
        say_num(out, v / base, base);
        out.push(digit(v % base));
        assert(out@ =~= old(out)@ + fmt::digits(v as nat, base as nat));
    }
}

pub open spec fn dec(v: int) -> Seq<u8> {
    fmt::digits(v as nat, 10)
}

/// A number in the way addresses are written.
pub open spec fn addr(v: u32) -> Seq<u8> {
    b("0x") + fmt::digits(v as nat, 16)
}

pub fn say_dec(out: &mut Vec<u8>, v: u64)
    ensures
        final(out)@ == old(out)@ + dec(v as int),
{
    say_num(out, v, 10);
}

pub fn say_addr(out: &mut Vec<u8>, v: u32)
    ensures
        final(out)@ == old(out)@ + addr(v),
{
    say(out, "0x");
    say_num(out, v as u64, 16);
    assert(out@ =~= old(out)@ + addr(v));
}

/// Two digits.
pub open spec fn two(v: int) -> Seq<u8> {
    seq![fmt::digit(v / 10), fmt::digit(v % 10)]
}

pub fn say_two(out: &mut Vec<u8>, v: u64)
    requires
        v < 100,
    ensures
        final(out)@ == old(out)@ + two(v as int),
{
    out.push(digit(v / 10));
    out.push(digit(v % 10));
    assert(out@ =~= old(out)@ + two(v as int));
}

/// Spaces that fill a text up to a width.
pub open spec fn padding(len: int, width: int) -> Seq<u8> {
    Seq::new(
        (if len < width {
            width - len
        } else {
            0
        }) as nat,
        |i: int| 0x20u8,
    )
}

pub fn say_padded(out: &mut Vec<u8>, s: &str, width: usize)
    ensures
        final(out)@ == old(out)@ + b(s) + padding(b(s).len() as int, width as int),
{
    say(out, s);
    let ghost start = out@;
    let mut n: usize = s.as_bytes().len();
    let ghost n0 = n as int;
    assert(out@ =~= start + Seq::<u8>::empty());
    while n < width
        invariant
            n0 == b(s).len(),
            n0 <= n,
            n <= width || n == n0,
            out@ == start + Seq::new((n - n0) as nat, |i: int| 0x20u8),
        decreases width - n,
    {
        out.push(0x20);
        n += 1;
        assert(out@ =~= start + Seq::new((n - n0) as nat, |i: int| 0x20u8));
    }
    assert(Seq::new((n - n0) as nat, |i: int| 0x20u8) =~= padding(n0, width as int));
}

/// Whether bytes are those of a text.
pub fn is_text(v: &[u8], s: &str) -> (r: bool)
    ensures
        r == (v@ == b(s)),
{
    let t = s.as_bytes();
    if v.len() != t.len() {
        return false;
    }
    let mut i: usize = 0;
    while i < v.len()
        invariant
            i <= v@.len(),
            v@.len() == t@.len(),
            t@ == b(s),
            forall|k: int| 0 <= k < i ==> v@[k] == #[trigger] t@[k],
        decreases v@.len() - i,
    {
        if v[i] != t[i] {
            return false;
        }
        i += 1;
    }
    assert(v@ =~= t@);
    true
}

} // verus!
