//! Addresses and requests of the web tools.
use crate::eos::text;
use vstd::prelude::*;

verus! {

// ---- addresses ----

pub open spec fn is_digit(c: u8) -> bool {
    0x30 <= c <= 0x39
}

/// Value of decimal digits.
pub open spec fn dec_value(d: Seq<u8>) -> int
    decreases d.len(),
{
    if d.len() == 0 {
        0
    } else {
        10 * dec_value(d.drop_last()) + (d.last() - 0x30)
    }
}

/// One part of an address: one to three digits, 255 at most.
pub open spec fn is_part(d: Seq<u8>) -> bool {
    &&& 1 <= d.len() <= 3
    &&& forall|i: int| 0 <= i < d.len() ==> is_digit(#[trigger] d[i])
    &&& dec_value(d) <= 255
}

/// Where a part that starts at `i` ends: at a dot, or at the end.
pub open spec fn part_end(t: Seq<u8>, i: int) -> int
    decreases t.len() - i,
{
    if i < t.len() && t[i] != 0x2e {
        part_end(t, i + 1)
    } else {
        i
    }
}

/// Length of a text: up to a zero, or all of it. Counted from `i` on.
pub open spec fn text_end(s: Seq<u8>, i: int) -> int
    decreases s.len() - i,
{
    if i < s.len() && s[i] != 0 {
        text_end(s, i + 1)
    } else {
        i
    }
}

/// `k` parts from `i` to the end of a text, read as a number to the base 256
/// behind `acc`.
pub open spec fn parts(t: Seq<u8>, i: int, k: int, acc: int) -> Option<int>
    decreases k,
{
    let e = part_end(t, i);
    let d = t.subrange(i, e);
    if i > t.len() || !is_part(d) {
        None
    } else if k <= 1 {
        if e == t.len() {
            Some(acc * 256 + dec_value(d))
        } else {
            None
        }
    } else if e >= t.len() {
        None
    } else {
        parts(t, e + 1, k - 1, acc * 256 + dec_value(d))
    }
}

/// The address in a text of four numbers with dots between them.
pub open spec fn address(s: Seq<u8>) -> Option<int> {
    parts(s.take(text_end(s, 0)), 0, 4, 0)
}

proof fn lemma_part_end(t: Seq<u8>, i: int)
    requires
        0 <= i <= t.len(),
    ensures
        i <= part_end(t, i) <= t.len(),
        part_end(t, i) < t.len() ==> t[part_end(t, i)] == 0x2e,
        forall|k: int| i <= k < part_end(t, i) ==> #[trigger] t[k] != 0x2e,
    decreases t.len() - i,
{
    if i < t.len() && t[i] != 0x2e {
        lemma_part_end(t, i + 1);
    }
}

proof fn lemma_text_end(s: Seq<u8>, i: int)
    requires
        0 <= i <= s.len(),
    ensures
        i <= text_end(s, i) <= s.len(),
    decreases s.len() - i,
{
    if i < s.len() && s[i] != 0 {
        lemma_text_end(s, i + 1);
    }
}

/// The part of a text from `i` on: its value and where it ends.
fn part(s: &[u8], n: usize, i: usize) -> (r: Option<(u32, usize)>)
    requires
        i <= n <= s@.len(),
    ensures
        ({
            let t = s@.take(n as int);
            let e = part_end(t, i as int);
            let d = t.subrange(i as int, e);
            match r {
                Some((v, j)) => is_part(d) && v == dec_value(d) && j == e && v <= 255,
                None => !is_part(d),
            }
        }),
        r matches Some((v, j)) ==> i <= j <= n,
{
    let ghost t = s@.take(n as int);
    let ghost e = part_end(t, i as int);
    let mut v: u32 = 0;
    let mut j: usize = i;
    proof {
        lemma_part_end(t, i as int);
        assert(t.subrange(i as int, i as int) =~= Seq::empty());
    }
    while j < n && s[j] != 0x2e
        invariant
            i <= j <= n <= s@.len(),
            t == s@.take(n as int),
            e == part_end(t, i as int),
            e == part_end(t, j as int),
            i <= e <= n,
            j <= e,
            j - i <= 3,
            v <= 255,
            v == dec_value(t.subrange(i as int, j as int)),
            forall|k: int| i <= k < j ==> is_digit(#[trigger] t[k]),
        decreases n - j,
    {
        let c = s[j];
        let ghost d = t.subrange(i as int, e);
        proof {
            lemma_part_end(t, j + 1);
        }
        if c < 0x30 || c > 0x39 {
            assert(d[j - i] == c);
            return None;
        }
        if j - i >= 3 {
            return None;
        }
        v = v * 10 + (c - 0x30) as u32;
        j += 1;
        proof {
            let a = t.subrange(i as int, j as int);
            assert(a.drop_last() =~= t.subrange(i as int, j - 1));
            assert(a.last() == c);
        }
        if v > 255 {
            proof {
                lemma_dec_grows(d, j - i);
                assert(d.take(j - i) =~= t.subrange(i as int, j as int));
                if is_part(d) {
                    assert(dec_value(d) >= v);
                }
            }
            return None;
        }
    }
    assert(j == e);
    let ghost d = t.subrange(i as int, e);
    if j == i {
        return None;
    }
    proof {
        assert forall|k: int| 0 <= k < d.len() implies is_digit(#[trigger] d[k]) by {
            assert(d[k] == t[i + k]);
        }
    }
    Some((v, j))
}

/// More digits make no smaller number.
proof fn lemma_dec_grows(d: Seq<u8>, k: int)
    requires
        0 <= k <= d.len(),
    ensures
        (forall|i: int| 0 <= i < d.len() ==> is_digit(#[trigger] d[i])) ==> 0 <= dec_value(d.take(k)) <= dec_value(d),
    decreases d.len(),
{
    if d.len() == 0 {
        assert(d.take(k) =~= d);
    } else if k == d.len() {
        assert(d.take(k) =~= d);
        lemma_dec_grows(d.drop_last(), k - 1);
        if forall|i: int| 0 <= i < d.len() ==> is_digit(#[trigger] d[i]) {
            assert(is_digit(d[d.len() - 1]));
            assert forall|i: int| 0 <= i < d.drop_last().len() implies is_digit(
                #[trigger] d.drop_last()[i],
            ) by {
                assert(is_digit(d[i]));
            }
        }
    } else {
        lemma_dec_grows(d.drop_last(), k);
        assert(d.drop_last().take(k) =~= d.take(k));
        if forall|i: int| 0 <= i < d.len() ==> is_digit(#[trigger] d[i]) {
            assert(is_digit(d[d.len() - 1]));
            assert forall|i: int| 0 <= i < d.drop_last().len() implies is_digit(
                #[trigger] d.drop_last()[i],
            ) by {
                assert(is_digit(d[i]));
            }
        }
    }
}

/// Reads an address: four numbers of 255 at most, with dots between them.
pub fn parse_ip(s: &[u8]) -> (r: Option<u32>)
    ensures
        match r {
            Some(v) => address(s@) == Some(v as int),
            None => address(s@) is None,
        },
{
    let len: usize = s.len();
    let mut n: usize = 0;
    while n < len && s[n] != 0
        invariant
            n <= len,
            len == s@.len(),
            text_end(s@, 0) == text_end(s@, n as int),
        decreases len - n,
    {
        n += 1;
    }
    let ghost t = s@.take(n as int);
    let mut acc: u32 = 0;
    let mut i: usize = 0;
    let mut k: u32 = 4;
    while k > 1
        invariant
            len == s@.len(),
            n <= len,
            i <= n,
            t == s@.take(n as int),
            n == text_end(s@, 0),
            1 <= k <= 4,
            k == 4 ==> acc == 0,
            k == 3 ==> acc < 0x100,
            k == 2 ==> acc < 0x1_0000,
            k == 1 ==> acc < 0x100_0000,
            parts(t, 0, 4, 0) == parts(t, i as int, k as int, acc as int),
        decreases k,
    {
        match part(s, n, i) {
            Some((v, e)) => {
                if e >= n {
                    return None;
                }
                acc = acc * 256 + v;
                i = e + 1;
                k -= 1;
            },
            None => {
                return None;
            },
        }
    }
    match part(s, n, i) {
        Some((v, e)) => if e == n {
            Some(acc * 256 + v)
        } else {
            None
        },
        None => None,
    }
}

// ---- requests ----

/// Pieces laid one after another while they fit, behind what is there.
pub open spec fn lay(p: Seq<Seq<u8>>, i: int, cap: int, acc: Seq<u8>) -> (Seq<u8>, bool)
    decreases p.len() - i,
{
    if i >= p.len() {
        (acc, true)
    } else if acc.len() + p[i].len() > cap {
        (acc, false)
    } else {
        lay(p, i + 1, cap, acc + p[i])
    }
}

pub open spec fn request(host: Seq<u8>, path: Seq<u8>) -> Seq<Seq<u8>> {
    seq![
        text::b("GET "),
        path,
        text::b(" HTTP/1.0\r\nHost: "),
        host,
        text::b("\r\nConnection: close\r\n\r\n"),
    ]
}

/// The start of a buffer replaced.
pub open spec fn over(buf: Seq<u8>, v: Seq<u8>) -> Seq<u8> {
    v + buf.skip(v.len() as int)
}

fn put(buf: &mut [u8], n: usize, p: &[u8], Ghost(acc): Ghost<Seq<u8>>, Ghost(b0): Ghost<Seq<u8>>) -> (ok:
    bool)
    requires
        n == acc.len(),
        n <= old(buf)@.len(),
        b0.len() == old(buf)@.len(),
        old(buf)@ == over(b0, acc),
    ensures
        final(buf)@.len() == old(buf)@.len(),
        ok == (acc.len() + p@.len() <= b0.len()),
        final(buf)@ == if ok {
            over(b0, acc + p@)
        } else {
            over(b0, acc)
        },
{
    let k: usize = p.len();
    let cap: usize = buf.len();
    if k > cap - n {
        return false;
    }
    let mut j: usize = 0;
    assert(acc + p@.take(0) =~= acc);
    while j < k
        invariant
            k == p@.len(),
            j <= k,
            n == acc.len(),
            n + k <= cap,
            cap == buf@.len(),
            buf@.len() == b0.len(),
            buf@ == over(b0, acc + p@.take(j as int)),
        decreases k - j,
    {
        buf[n + j] = p[j];
        j += 1;
        assert(buf@ =~= over(b0, acc + p@.take(j as int)));
    }
    assert(p@.take(k as int) =~= p@);
    true
}

/// Writes a request for a page; its length, or 0 when it does not fit.
pub fn http_req(buf: &mut [u8], host: &[u8], path: &[u8]) -> (n: usize)
    ensures
        final(buf)@.len() == old(buf)@.len(),
        ({
            let (v, ok) = lay(request(host@, path@), 0, old(buf)@.len() as int, Seq::empty());
            &&& final(buf)@ == over(old(buf)@, v)
            &&& n == if ok {
                v.len()
            } else {
                0
            }
        }),
{
    let ghost b0 = buf@;
    let ghost rq = request(host@, path@);
    let cap: usize = buf.len();
    let get = "GET ".as_bytes();
    let mid = " HTTP/1.0\r\nHost: ".as_bytes();
    let end = "\r\nConnection: close\r\n\r\n".as_bytes();
    let ghost a0 = Seq::<u8>::empty();
    let ghost a1 = a0 + rq[0];
    let ghost a2 = a1 + rq[1];
    let ghost a3 = a2 + rq[2];
    let ghost a4 = a3 + rq[3];
    assert(buf@ =~= over(b0, a0));
    proof {
        reveal_with_fuel(lay, 7);
    }
    let mut n: usize = 0;
    if !put(buf, n, get, Ghost(a0), Ghost(b0)) {
        return 0;
    }
    n = n + get.len();
    if !put(buf, n, path, Ghost(a1), Ghost(b0)) {
        return 0;
    }
    n = n + path.len();
    if !put(buf, n, mid, Ghost(a2), Ghost(b0)) {
        return 0;
    }
    n = n + mid.len();
    if !put(buf, n, host, Ghost(a3), Ghost(b0)) {
        return 0;
    }
    n = n + host.len();
    if !put(buf, n, end, Ghost(a4), Ghost(b0)) {
        return 0;
    }
    n + end.len()
}

// ---- replies ----

/// The empty line starts at `i`.
pub open spec fn blank_at(r: Seq<u8>, i: int) -> bool {
    i + 4 <= r.len() && r[i] == 0x0d && r[i + 1] == 0x0a && r[i + 2] == 0x0d && r[i + 3] == 0x0a
}

/// The first empty line from `i` on.
pub open spec fn blank(r: Seq<u8>, i: int) -> Option<int>
    decreases r.len() - i,
{
    if i + 4 > r.len() {
        None
    } else if blank_at(r, i) {
        Some(i)
    } else {
        blank(r, i + 1)
    }
}

pub open spec fn first_space(r: Seq<u8>, i: int) -> int
    decreases r.len() - i,
{
    if i < r.len() && r[i] != 0x20 {
        first_space(r, i + 1)
    } else {
        i
    }
}

/// The three digits after the first space; 0 where there are none.
pub open spec fn status(r: Seq<u8>) -> int {
    let i = first_space(r, 0);
    if i + 4 <= r.len() && is_digit(r[i + 1]) && is_digit(r[i + 2]) && is_digit(r[i + 3]) {
        (r[i + 1] - 0x30) * 100 + (r[i + 2] - 0x30) * 10 + (r[i + 3] - 0x30)
    } else {
        0
    }
}

fn http_status(r: &[u8]) -> (v: u16)
    ensures
        v == status(r@),
{
    let n: usize = r.len();
    let mut i: usize = 0;
    while i < n && r[i] != 0x20
        invariant
            n == r@.len(),
            i <= n,
            first_space(r@, 0) == first_space(r@, i as int),
        decreases n - i,
    {
        i += 1;
    }
    if n - i < 4 {
        return 0;
    }
    let a = r[i + 1];
    let b = r[i + 2];
    let c = r[i + 3];
    if a < 0x30 || a > 0x39 || b < 0x30 || b > 0x39 || c < 0x30 || c > 0x39 {
        return 0;
    }
    (a - 0x30) as u16 * 100 + (b - 0x30) as u16 * 10 + (c - 0x30) as u16
}

/// Status of a reply and where its body starts; both 0 without an empty line.
pub fn http_split(resp: &[u8]) -> (r: (u16, usize))
    ensures
        match blank(resp@, 0) {
            Some(i) => r.0 == status(resp@) && r.1 == i + 4,
            None => r == (0u16, 0usize),
        },
{
    let n: usize = resp.len();
    let mut i: usize = 0;
    while n - i >= 4
        invariant
            n == resp@.len(),
            i <= n,
            blank(resp@, 0) == blank(resp@, i as int),
        decreases n - i,
    {
        if resp[i] == 0x0d && resp[i + 1] == 0x0a && resp[i + 2] == 0x0d && resp[i + 3] == 0x0a {
            return (http_status(resp), i + 4);
        }
        i += 1;
    }
    (0, 0)
}

} // verus!
