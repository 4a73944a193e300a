//! Numbers written as text into the caller's buffer.
//!
//! Every function writes as many digits as fit, the most significant first,
//! and returns the new length.
use vstd::prelude::*;

verus! {

/// Character of a digit.
pub open spec fn digit(d: int) -> u8 {
    if d < 10 {
        (0x30 + d) as u8
    } else {
        (0x61 + d - 10) as u8
    }
}

/// Digits of `v` to the base `b`, the most significant first.
pub open spec fn digits(v: nat, b: nat) -> Seq<u8>
    decreases v,
{
    if v < b || b < 2 {
        seq![digit(v as int)]
    } else {
        proof {
            assert(v / b < v) by (nonlinear_arith)
                requires
                    v >= b,
                    b >= 2,
            ;
        }
        digits(v / b, b).push(digit((v % b) as int))
    }
}

/// Digits that fit into a buffer of `len` bytes from `n` on.
pub open spec fn fits(len: nat, n: int, k: nat) -> int {
    if n >= len {
        0
    } else if n + k <= len {
        k as int
    } else {
        len - n
    }
}

/// The buffer with as much of `d` as fits written from `n` on.
pub open spec fn written(buf: Seq<u8>, n: int, d: Seq<u8>) -> Seq<u8> {
    Seq::new(
        buf.len(),
        |i: int|
            if n <= i < n + d.len() {
                d[i - n]
            } else {
                buf[i]
            },
    )
}

/// Digits of `v`, the least significant first.
fn radix(v: usize, b: usize) -> (r: Vec<u8>)
    requires
        b == 8 || b == 10 || b == 16,
    ensures
        r@.len() == digits(v as nat, b as nat).len(),
        forall|i: int|
            0 <= i < r@.len() ==> #[trigger] r@[i] == digits(v as nat, b as nat)[r@.len() - 1 - i],
{
    let mut r: Vec<u8> = Vec::new();
    let mut w: usize = v;
    let ghost d0 = digits(v as nat, b as nat);
    while w >= b
        invariant
            b == 8 || b == 10 || b == 16,
            d0 == digits(v as nat, b as nat),
            d0.len() == digits(w as nat, b as nat).len() + r@.len(),
            forall|i: int|
                0 <= i < digits(w as nat, b as nat).len() ==> #[trigger] d0[i] == digits(
                    w as nat,
                    b as nat,
                )[i],
            forall|i: int| 0 <= i < r@.len() ==> #[trigger] r@[i] == d0[d0.len() - 1 - i],
        decreases w,
    {
        let d: usize = w % b;
        let c: u8 = if d < 10 {
            0x30 + d as u8
        } else {
            0x61 + (d as u8 - 10)
        };
        proof {
            let t = digits(w as nat, b as nat);
            assert(t == digits((w / b) as nat, b as nat).push(digit((w % b) as int)));
            assert(t[t.len() - 1] == digit((w % b) as int));
            assert(d0[t.len() - 1] == c);
        }
        r.push(c);
        w = w / b;
    }
    let c: u8 = if w < 10 {
        0x30 + w as u8
    } else {
        0x61 + (w as u8 - 10)
    };
    assert(digits(w as nat, b as nat) =~= seq![digit(w as int)]);
    assert(d0[0] == c);
    r.push(c);
    r
}

/// Writes the digits of `v` at `buf[n..]`.
fn push_radix(buf: &mut [u8], n: usize, v: usize, b: usize) -> (r: usize)
    requires
        b == 8 || b == 10 || b == 16,
    ensures
        r == n + fits(old(buf)@.len(), n as int, digits(v as nat, b as nat).len()),
        final(buf)@ == written(old(buf)@, n as int, digits(v as nat, b as nat)),
{
    let t = radix(v, b);
    let ghost d = digits(v as nat, b as nat);
    let ghost b0 = buf@;
    let mut i: usize = t.len();
    let mut k: usize = n;
    let len: usize = buf.len();
    while i > 0 && k < len
        invariant
            b0 == old(buf)@,
            d == digits(v as nat, b as nat),
            len == b0.len(),
            buf@.len() == len,
            i <= t@.len(),
            t@.len() == d.len(),
            k == n + (d.len() - i),
            k <= len || i == d.len(),
            forall|j: int| 0 <= j < t@.len() ==> #[trigger] t@[j] == d[t@.len() - 1 - j],
            forall|j: int|
                0 <= j < len ==> #[trigger] buf@[j] == (if n <= j < k {
                    d[j - n]
                } else {
                    b0[j]
                }),
        decreases i,
    {
        i -= 1;
        buf[k] = t[i];
        k += 1;
    }
    assert(buf@ =~= written(b0, n as int, d));
    k
}

/// Decimal digits of `v` appended at `buf[n..]`.
pub fn push_dec(buf: &mut [u8], n: usize, v: usize) -> (r: usize)
    ensures
        r == n + fits(old(buf)@.len(), n as int, digits(v as nat, 10).len()),
        final(buf)@ == written(old(buf)@, n as int, digits(v as nat, 10)),
{
    push_radix(buf, n, v, 10)
}

/// Decimal digits of `v` written at the start of `buf`.
pub fn fmt_dec(buf: &mut [u8], v: usize) -> (r: usize)
    ensures
        r == fits(old(buf)@.len(), 0, digits(v as nat, 10).len()),
        final(buf)@ == written(old(buf)@, 0, digits(v as nat, 10)),
{
    push_dec(buf, 0, v)
}

/// Lower-case hexadecimal digits of `v` appended at `buf[n..]`.
pub fn push_hex(buf: &mut [u8], n: usize, v: usize) -> (r: usize)
    ensures
        r == n + fits(old(buf)@.len(), n as int, digits(v as nat, 16).len()),
        final(buf)@ == written(old(buf)@, n as int, digits(v as nat, 16)),
{
    push_radix(buf, n, v, 16)
}

/// Lower-case hexadecimal digits of `v` written at the start of `buf`.
pub fn fmt_hex(buf: &mut [u8], v: usize) -> (r: usize)
    ensures
        r == fits(old(buf)@.len(), 0, digits(v as nat, 16).len()),
        final(buf)@ == written(old(buf)@, 0, digits(v as nat, 16)),
{
    push_hex(buf, 0, v)
}

/// Octal digits of `v` appended at `buf[n..]`.
pub fn push_oct(buf: &mut [u8], n: usize, v: usize) -> (r: usize)
    ensures
        r == n + fits(old(buf)@.len(), n as int, digits(v as nat, 8).len()),
        final(buf)@ == written(old(buf)@, n as int, digits(v as nat, 8)),
{
    push_radix(buf, n, v, 8)
}

/// Octal digits of `v` written at the start of `buf`.
pub fn fmt_oct(buf: &mut [u8], v: usize) -> (r: usize)
    ensures
        r == fits(old(buf)@.len(), 0, digits(v as nat, 8).len()),
        final(buf)@ == written(old(buf)@, 0, digits(v as nat, 8)),
{
    push_oct(buf, 0, v)
}

/// Twenty bytes hold any 64-bit value in decimal, sixteen in hexadecimal and
/// twenty-three in octal.
pub proof fn law_buffer_sizes(v: u64)
    ensures
        digits(v as nat, 10).len() <= 20,
        digits(v as nat, 16).len() <= 16,
        digits(v as nat, 8).len() <= 23,
{
    lemma_length(v as nat, 10, 20);
    lemma_length(v as nat, 16, 16);
    lemma_length(v as nat, 8, 23);
    assert(power(10, 20) > u64::MAX) by {
        reveal_with_fuel(power, 21);
    }
    assert(power(16, 16) > u64::MAX) by {
        reveal_with_fuel(power, 17);
    }
    assert(power(8, 23) > u64::MAX) by {
        reveal_with_fuel(power, 24);
    }
}

pub open spec fn power(b: nat, k: nat) -> nat
    decreases k,
{
    if k == 0 {
        1
    } else {
        b * power(b, (k - 1) as nat)
    }
}

proof fn lemma_length(v: nat, b: nat, k: nat)
    requires
        b >= 2,
        k >= 1,
    ensures
        v < power(b, k) ==> digits(v, b).len() <= k,
    decreases k,
{
    if v >= b && v < power(b, k) {
        assert(power(b, 1) == b) by {
            reveal_with_fuel(power, 2);
            assert(b * 1 == b) by (nonlinear_arith);
        }
        assert(k > 1);
        let p = power(b, (k - 1) as nat);
        assert(v / b < p) by (nonlinear_arith)
            requires
                v < b * p,
                b >= 2,
        ;
        lemma_length(v / b, b, (k - 1) as nat);
    }
}

/// The value that digits to a base below eleven stand for.
pub open spec fn value(d: Seq<u8>, b: nat) -> int
    decreases d.len(),
{
    if d.len() == 0 {
        0
    } else {
        value(d.drop_last(), b) * b + (d.last() - 0x30)
    }
}

/// Decimal and octal digits stand for the number they were made from.
pub proof fn law_digits_value(v: nat, b: nat)
    requires
        2 <= b <= 10,
    ensures
        value(digits(v, b), b) == v,
    decreases v,
{
    let d = digits(v, b);
    if v < b {
        assert(d.drop_last() =~= Seq::empty());
        assert(value(d.drop_last(), b) == 0);
        assert(0 * b == 0) by (nonlinear_arith);
    } else {
        assert(v / b < v) by (nonlinear_arith)
            requires
                v >= b,
                b >= 2,
        ;
        law_digits_value(v / b, b);
        assert(d.drop_last() =~= digits(v / b, b));
        assert((v / b) * b + v % b == v) by (nonlinear_arith)
            requires
                b >= 2,
        ;
    }
}

} // verus!
