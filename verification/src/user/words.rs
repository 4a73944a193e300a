//! What the user tools make of text, and text of numbers.
use crate::eos::text;
use crate::user::argv;
use crate::user::demo;
use crate::user::dns;
use crate::user::dns::Lookup;
use crate::user::fmt;
use crate::user::web;
use vstd::prelude::*;

verus! {

/// Decimal digits only, at least one.
pub open spec fn decimal(s: Seq<u8>) -> bool {
    s.len() > 0 && forall|i: int| 0 <= i < s.len() ==> 0x30 <= #[trigger] s[i] <= 0x39
}

// ---- numbers ----

/// Value of a digit, decimal or hexadecimal with small letters.
pub open spec fn weight(c: u8) -> int {
    if 0x30 <= c <= 0x39 {
        c - 0x30
    } else if 0x61 <= c <= 0x66 {
        c - 0x61 + 10
    } else {
        -1
    }
}

/// The number that digits to a base stand for.
pub open spec fn worth(d: Seq<u8>, b: nat) -> int
    decreases d.len(),
{
    if d.len() == 0 {
        0
    } else {
        worth(d.drop_last(), b) * b + weight(d.last())
    }
}

/// A number written to a base up to sixteen is read back as it was, digit by
/// digit, and has no zero in front.
pub proof fn law_written_number_is_read_back(v: nat, b: nat)
    requires
        2 <= b <= 16,
    ensures
        worth(fmt::digits(v, b), b) == v,
        fmt::digits(v, b).len() > 0,
        fmt::digits(v, b).len() > 1 ==> fmt::digits(v, b)[0] != 0x30,
        forall|i: int| 0 <= i < fmt::digits(v, b).len() ==> 0 <= weight(#[trigger] fmt::digits(v, b)[i]) < b,
    decreases v,
{
    let d = fmt::digits(v, b);
    if v < b {
        assert(d.drop_last() =~= Seq::empty());
        assert(worth(d.drop_last(), b) == 0);
        assert(0 * b == 0) by (nonlinear_arith);
    } else {
        assert(v / b < v) by (nonlinear_arith)
            requires
                v >= b,
                b >= 2,
        ;
        assert(v / b >= 1) by (nonlinear_arith)
            requires
                v >= b,
                b >= 2,
        ;
        assert(0 <= v % b < b) by (nonlinear_arith)
            requires
                b >= 2,
        ;
        law_written_number_is_read_back(v / b, b);
        let e = fmt::digits(v / b, b);
        assert(d.drop_last() =~= e);
        assert((v / b) * b + v % b == v) by (nonlinear_arith)
            requires
                b >= 2,
        ;
        assert(d[0] == e[0]);
        if e.len() == 1 {
            assert(e.drop_last() =~= Seq::empty());
            assert(worth(e.drop_last(), b) == 0);
            assert(0 * b == 0) by (nonlinear_arith);
        }
        assert forall|i: int| 0 <= i < d.len() implies 0 <= weight(#[trigger] d[i]) < b by {
            if i < e.len() {
                assert(d[i] == e[i]);
            }
        }
    }
}

pub proof fn lemma_dec(d: Seq<u8>)
    requires
        forall|i: int| 0 <= i < d.len() ==> 0x30 <= #[trigger] d[i] <= 0x39,
    ensures
        argv::dec_value(d) == worth(d, 10),
        web::dec_value(d) == worth(d, 10),
        worth(d, 10) >= 0,
    decreases d.len(),
{
    if d.len() > 0 {
        lemma_dec(d.drop_last());
    }
}

/// A decimal number is what its digits stand for; anything else is none.
pub proof fn law_decimal_is_read(s: Seq<u8>)
    ensures
        argv::dec_of(s) == if decimal(s) && worth(s, 10) <= usize::MAX {
            Some(worth(s, 10) as usize)
        } else {
            None
        },
{
    if argv::all_digits(s) {
        assert forall|i: int| 0 <= i < s.len() implies 0x30 <= #[trigger] s[i] <= 0x39 by {
            assert(argv::is_digit(s[i]));
        }
        lemma_dec(s);
    } else if decimal(s) {
        assert forall|i: int| 0 <= i < s.len() implies argv::is_digit(#[trigger] s[i]) by {}
    }
}

proof fn lemma_digits_end(b: Seq<u8>, i: int, j: int)
    requires
        0 <= i <= j <= b.len(),
        forall|k: int| i <= k < j ==> 0x30 <= #[trigger] b[k] <= 0x39,
        j == b.len() || !(0x30 <= b[j] <= 0x39),
    ensures
        argv::digits_end(b, i) == j,
    decreases j - i,
{
    if i < j {
        lemma_digits_end(b, i + 1, j);
    }
}

/// A memory size is a number of frames, or one of kilobytes, megabytes or
/// gigabytes that is rounded up to frames.
pub proof fn law_memory_size(d: Seq<u8>, c: u8)
    requires
        decimal(d),
        worth(d, 10) * 0x4000_0000 + 4095 <= usize::MAX,
        !(0x30 <= c <= 0x39),
    ensures
        argv::mem_of(d) == Some(worth(d, 10) as usize),
        c == 0x4b || c == 0x6b ==> argv::mem_of(d.push(c)) == Some(((worth(d, 10) + 3) / 4) as usize),
        c == 0x4d || c == 0x6d ==> argv::mem_of(d.push(c)) == Some((worth(d, 10) * 256) as usize),
        c == 0x47 || c == 0x67 ==> argv::mem_of(d.push(c)) == Some((worth(d, 10) * 0x4_0000) as usize),
        !(c == 0x4b || c == 0x6b || c == 0x4d || c == 0x6d || c == 0x47 || c == 0x67) ==> argv::mem_of(d.push(c)) is None,
{
    let e = d.push(c);
    let n = d.len() as int;
    lemma_dec(d);
    law_decimal_is_read(d);
    lemma_digits_end(d, 0, n);
    assert forall|k: int| 0 <= k < n implies 0x30 <= #[trigger] e[k] <= 0x39 by {
        assert(e[k] == d[k]);
    }
    lemma_digits_end(e, 0, n);
    assert(d.take(n) =~= d);
    assert(e.take(n) =~= d);
}

// ---- requirements ----

/// Neither `=` nor `>` in it.
pub open spec fn bare(s: Seq<u8>) -> bool {
    forall|i: int| 0 <= i < s.len() ==> #[trigger] s[i] != 0x3d && s[i] != 0x3e
}

proof fn lemma_mark(t: Seq<u8>, i: int, j: int)
    requires
        0 <= i <= j <= t.len(),
        forall|k: int| i <= k < j ==> #[trigger] t[k] != 0x3d && t[k] != 0x3e,
        j == t.len() || t[j] == 0x3d || t[j] == 0x3e,
    ensures
        argv::mark(t, i) == j,
    decreases j - i,
{
    if i < j {
        lemma_mark(t, i + 1, j);
    }
}

/// A name alone asks for any version, `name=v` for that one, `name>=v` for that
/// or a later one.
pub proof fn law_requirement_is_split(name: Seq<u8>, v: Seq<u8>)
    requires
        bare(name),
    ensures
        argv::vreq(name) == (name, None::<(Seq<u8>, u8)>),
        argv::vreq(name + seq![0x3du8] + v) == (name, Some((v, 0u8))),
        argv::vreq(name + seq![0x3eu8, 0x3du8] + v) == (name, Some((v, 1u8))),
{
    let n = name.len() as int;
    lemma_mark(name, 0, n);
    let a = name + seq![0x3du8] + v;
    assert forall|k: int| 0 <= k < n implies #[trigger] a[k] != 0x3d && a[k] != 0x3e by {
        assert(a[k] == name[k]);
    }
    lemma_mark(a, 0, n);
    assert(a.take(n) =~= name);
    assert(a.skip(n + 1) =~= v);
    let b = name + seq![0x3eu8, 0x3du8] + v;
    assert forall|k: int| 0 <= k < n implies #[trigger] b[k] != 0x3d && b[k] != 0x3e by {
        assert(b[k] == name[k]);
    }
    lemma_mark(b, 0, n);
    assert(b.take(n) =~= name);
    assert(b.skip(n + 2) =~= v);
}

// ---- addresses ----

/// One number of an address.
pub open spec fn octet(d: Seq<u8>) -> bool {
    decimal(d) && d.len() <= 3 && worth(d, 10) <= 255
}

proof fn lemma_part(t: Seq<u8>, i: int, j: int)
    requires
        0 <= i <= j <= t.len(),
        forall|k: int| i <= k < j ==> #[trigger] t[k] != 0x2e,
        j == t.len() || t[j] == 0x2e,
    ensures
        web::part_end(t, i) == j,
    decreases j - i,
{
    if i < j {
        lemma_part(t, i + 1, j);
    }
}

proof fn lemma_octet(d: Seq<u8>)
    ensures
        web::is_part(d) == octet(d),
        octet(d) ==> web::dec_value(d) == worth(d, 10),
{
    if web::is_part(d) {
        assert forall|i: int| 0 <= i < d.len() implies 0x30 <= #[trigger] d[i] <= 0x39 by {
            assert(web::is_digit(d[i]));
        }
        lemma_dec(d);
    }
    if octet(d) {
        lemma_dec(d);
        assert forall|i: int| 0 <= i < d.len() implies web::is_digit(#[trigger] d[i]) by {}
    }
}

/// Four numbers with dots between them.
pub open spec fn dotted4(a: Seq<u8>, b: Seq<u8>, c: Seq<u8>, d: Seq<u8>) -> Seq<u8> {
    a + seq![0x2eu8] + b + seq![0x2eu8] + c + seq![0x2eu8] + d
}

proof fn lemma_whole_text(s: Seq<u8>, i: int)
    requires
        0 <= i <= s.len(),
        forall|k: int| i <= k < s.len() ==> #[trigger] s[k] != 0,
    ensures
        web::text_end(s, i) == s.len(),
    decreases s.len() - i,
{
    if i < s.len() {
        lemma_whole_text(s, i + 1);
    }
}

/// Four numbers up to 255 with dots between them are an address, the first the
/// most significant.
#[verifier::spinoff_prover]
#[verifier::rlimit(40)]
pub proof fn law_dotted_numbers_are_an_address(a: Seq<u8>, b: Seq<u8>, c: Seq<u8>, d: Seq<u8>)
    requires
        octet(a),
        octet(b),
        octet(c),
        octet(d),
    ensures
        web::address(dotted4(a, b, c, d)) == Some(
            worth(a, 10) * 0x100_0000 + worth(b, 10) * 0x1_0000 + worth(c, 10) * 0x100 + worth(d, 10),
        ),
{
    let s = dotted4(a, b, c, d);
    let n = s.len() as int;
    let i1 = a.len() as int;
    let i2 = i1 + 1 + b.len();
    let i3 = i2 + 1 + c.len();
    assert forall|k: int| 0 <= k < i1 implies s[k] == #[trigger] a[k] by {}
    assert forall|k: int| 0 <= k < b.len() implies s[i1 + 1 + k] == #[trigger] b[k] by {}
    assert forall|k: int| 0 <= k < c.len() implies s[i2 + 1 + k] == #[trigger] c[k] by {}
    assert forall|k: int| 0 <= k < d.len() implies s[i3 + 1 + k] == #[trigger] d[k] by {}
    assert forall|k: int| 0 <= k < n implies #[trigger] s[k] != 0 && ((0 <= k < i1 || i1 < k < i2 || i2 < k < i3 || i3
        < k < n) ==> s[k] != 0x2e) by {
        if k < i1 {
            assert(s[k] == a[k]);
        } else if i1 < k < i2 {
            assert(s[k] == b[k - i1 - 1]);
        } else if i2 < k < i3 {
            assert(s[k] == c[k - i2 - 1]);
        } else if i3 < k {
            assert(s[k] == d[k - i3 - 1]);
        }
    }
    lemma_whole_text(s, 0);
    assert(s.take(n) =~= s);
    lemma_part(s, 0, i1);
    lemma_part(s, i1 + 1, i2);
    lemma_part(s, i2 + 1, i3);
    lemma_part(s, i3 + 1, n);
    assert(s.subrange(0, i1) =~= a);
    assert(s.subrange(i1 + 1, i2) =~= b);
    assert(s.subrange(i2 + 1, i3) =~= c);
    assert(s.subrange(i3 + 1, n) =~= d);
    lemma_octet(a);
    lemma_octet(b);
    lemma_octet(c);
    lemma_octet(d);
    reveal_with_fuel(web::parts, 5);
}

/// Nothing else is an address: what is one is four numbers with dots between
/// them, up to the text's end.
#[verifier::spinoff_prover]
#[verifier::rlimit(40)]
pub proof fn law_address_is_dotted_numbers(s: Seq<u8>)
    requires
        web::address(s) is Some,
    ensures
        exists|a: Seq<u8>, b: Seq<u8>, c: Seq<u8>, d: Seq<u8>|
            octet(a) && octet(b) && octet(c) && octet(d) && s.take(web::text_end(s, 0)) == #[trigger] dotted4(a, b, c, d),
{
    let t = s.take(web::text_end(s, 0));
    let n = t.len() as int;
    reveal_with_fuel(web::parts, 5);
    let i1 = web::part_end(t, 0);
    let i2 = web::part_end(t, i1 + 1);
    let i3 = web::part_end(t, i2 + 1);
    let i4 = web::part_end(t, i3 + 1);
    lemma_end(t, 0);
    lemma_end(t, i1 + 1);
    lemma_end(t, i2 + 1);
    lemma_end(t, i3 + 1);
    let a = t.subrange(0, i1);
    let b = t.subrange(i1 + 1, i2);
    let c = t.subrange(i2 + 1, i3);
    let d = t.subrange(i3 + 1, i4);
    lemma_octet(a);
    lemma_octet(b);
    lemma_octet(c);
    lemma_octet(d);
    assert(t =~= dotted4(a, b, c, d));
}

proof fn lemma_end(t: Seq<u8>, i: int)
    requires
        0 <= i,
    ensures
        i <= web::part_end(t, i),
        i <= t.len() ==> web::part_end(t, i) <= t.len(),
        web::part_end(t, i) < t.len() ==> t[web::part_end(t, i)] == 0x2e,
    decreases t.len() - i,
{
    if i < t.len() && t[i] != 0x2e {
        lemma_end(t, i + 1);
    }
}

// ---- requests and replies ----

/// A request names the path and the host, asks to close, and ends with an empty
/// line; it is whole if it fits.
pub proof fn law_request_text(host: Seq<u8>, path: Seq<u8>, cap: int)
    requires
        text::b("GET ").len() + path.len() + text::b(" HTTP/1.0\r\nHost: ").len() + host.len() + text::b(
            "\r\nConnection: close\r\n\r\n",
        ).len() <= cap,
    ensures
        web::lay(web::request(host, path), 0, cap, Seq::empty()) == (
            text::b("GET ") + path + text::b(" HTTP/1.0\r\nHost: ") + host + text::b(
                "\r\nConnection: close\r\n\r\n",
            ),
            true,
        ),
{
    reveal_with_fuel(web::lay, 6);
    assert(Seq::<u8>::empty() + text::b("GET ") =~= text::b("GET "));
}

/// An empty line starts at `i`.
pub open spec fn ends_head(r: Seq<u8>, i: int) -> bool {
    0 <= i && i + 4 <= r.len() && r[i] == 13 && r[i + 1] == 10 && r[i + 2] == 13 && r[i + 3] == 10
}

/// A reply's head ends at its first empty line.
pub proof fn law_first_empty_line(r: Seq<u8>, from: int)
    requires
        0 <= from,
    ensures
        match web::blank(r, from) {
            Some(i) => from <= i && ends_head(r, i) && forall|j: int| from <= j < i ==> !#[trigger] ends_head(r, j),
            None => forall|j: int| from <= j ==> !#[trigger] ends_head(r, j),
        },
    decreases r.len() - from,
{
    if from + 4 <= r.len() {
        law_first_empty_line(r, from + 1);
    }
}

/// The status is the number of three digits behind the first space.
pub proof fn law_status_of_a_reply(v: Seq<u8>, a: u8, b: u8, c: u8, rest: Seq<u8>)
    requires
        forall|i: int| 0 <= i < v.len() ==> #[trigger] v[i] != 0x20,
        0x30 <= a <= 0x39,
        0x30 <= b <= 0x39,
        0x30 <= c <= 0x39,
    ensures
        web::status(v + seq![0x20u8, a, b, c] + rest) == worth(seq![a, b, c], 10),
{
    let r = v + seq![0x20u8, a, b, c] + rest;
    let n = v.len() as int;
    assert forall|k: int| 0 <= k < n implies #[trigger] r[k] != 0x20 by {
        assert(r[k] == v[k]);
    }
    lemma_space(r, 0, n);
    assert(r[n] == 0x20 && r[n + 1] == a && r[n + 2] == b && r[n + 3] == c);
    let d = seq![a, b, c];
    reveal_with_fuel(worth, 4);
    assert(d.drop_last() =~= seq![a, b]);
    assert(d.drop_last().drop_last() =~= seq![a]);
    assert(d.drop_last().drop_last().drop_last() =~= Seq::empty());
}

proof fn lemma_space(r: Seq<u8>, i: int, j: int)
    requires
        0 <= i <= j < r.len(),
        forall|k: int| i <= k < j ==> #[trigger] r[k] != 0x20,
        r[j] == 0x20,
    ensures
        web::first_space(r, i) == j,
    decreases j - i,
{
    if i < j {
        lemma_space(r, i + 1, j);
    }
}

// ---- arguments ----

/// A string ends at its first zero, or where the reader stops.
pub proof fn law_string_ends_at_zero(t: Seq<u8>, rest: Seq<u8>, cap: int)
    requires
        forall|i: int| 0 <= i < t.len() ==> #[trigger] t[i] != 0,
    ensures
        t.len() <= cap ==> demo::str_of(t + seq![0u8] + rest, cap) == t,
        t.len() <= cap ==> demo::str_of(t, cap) == t,
        0 <= cap < t.len() ==> demo::str_of(t, cap) == t.take(cap),
{
    let s = t + seq![0u8] + rest;
    if t.len() <= cap {
        assert forall|k: int| 0 <= k < t.len() implies #[trigger] s[k] != 0 by {
            assert(s[k] == t[k]);
        }
        lemma_str(s, cap, 0, t.len() as int);
        assert(s.take(t.len() as int) =~= t);
        lemma_str(t, cap, 0, t.len() as int);
        assert(t.take(t.len() as int) =~= t);
    } else if 0 <= cap {
        lemma_str(t, cap, 0, cap);
    }
}

proof fn lemma_str(s: Seq<u8>, cap: int, k: int, j: int)
    requires
        0 <= k <= j <= s.len(),
        j <= cap,
        forall|x: int| k <= x < j ==> #[trigger] s[x] != 0,
        j == s.len() || j == cap || s[j] == 0,
    ensures
        demo::str_end(s, cap, k) == j,
    decreases j - k,
{
    if k < j {
        lemma_str(s, cap, k + 1, j);
    }
}

/// A run that counts prints a line for each number from 1 on, with the number
/// and the word.
pub proof fn law_counting_adds_a_line(n: nat, word: Seq<u8>)
    requires
        fmt::digits(n + 1, 10).len() + text::b(" ").len() + word.len() + text::b("\n").len() <= 96,
    ensures
        demo::lines(0, word).len() == 0,
        demo::lines(n + 1, word) == demo::lines(n, word) + fmt::digits(n + 1, 10) + text::b(" ") + word + text::b(
            "\n",
        ),
{
    assert(demo::lines(n + 1, word) =~= demo::lines(n, word) + fmt::digits(n + 1, 10) + text::b(" ") + word + text::b(
        "\n",
    ));
}

// ---- lookups ----

/// A question that went out whole is followed by listening, and a reply with an
/// address ends the lookup with it.
pub proof fn law_lookup_finds(attempt: u32, tries: u32, more: u32, n: int, r: i64, p: Seq<u8>)
    requires
        r > 0,
        n <= i64::MAX,
        0 <= n,
        dns::reply(p) is Some,
    ensures
        ({
            let l = dns::after_send(Lookup::Ask { attempt, tries }, n as i64, n);
            l == (Lookup::Hear { attempt, tries: 0 })
        }),
        dns::after_recv(Lookup::Hear { attempt, tries: more }, r, p) == (Lookup::Found { ip: (dns::reply(p)->0) as u32 }),
{
}

/// What fails is asked again from the start, three times in all; what is not
/// ready is tried again first, two hundred times in all.
pub proof fn law_lookup_asks_again(attempt: u32, tries: u32, n: int, p: Seq<u8>, bad: i64, later: i64)
    requires
        attempt < 3,
        tries < 200,
        n > 0,
        bad <= 0,
        bad != -2,
        later == -2,
    ensures
        ({
            let next = if attempt < 2 {
                Lookup::Ask { attempt: (attempt + 1) as u32, tries: 0 }
            } else {
                Lookup::Failed
            };
            &&& dns::after_send(Lookup::Ask { attempt, tries }, bad, n) == next
            &&& dns::after_recv(Lookup::Hear { attempt, tries }, bad, p) == next
            &&& dns::reply(p) is None ==> dns::after_recv(Lookup::Hear { attempt, tries }, 1, p) == next
            &&& dns::after_send(Lookup::Ask { attempt, tries }, later, n) == if tries < 199 {
                Lookup::Ask { attempt, tries: (tries + 1) as u32 }
            } else {
                next
            }
            &&& dns::after_recv(Lookup::Hear { attempt, tries }, later, p) == if tries < 199 {
                Lookup::Hear { attempt, tries: (tries + 1) as u32 }
            } else {
                next
            }
        }),
{
}

} // verus!
