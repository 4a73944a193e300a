//! What the helpers do, told of the helpers themselves.
use crate::eos::text;
use crate::sys::call;
use crate::sys::call::Call;
use crate::user::answers;
use crate::user::answers::{Name, Rec};
use crate::user::argv;
use crate::user::calls;
use crate::user::calls::{Ecall, Line};
use crate::user::demo;
use crate::user::dns;
use crate::user::dns::{Lookup, MAX_ANSWERS, MAX_LABELS, MAX_QUERY};
use crate::user::fmt;
use crate::user::web;
use crate::user::words;
use vstd::prelude::*;

verus! {

// ---- names and addresses ----

/// Of a reply's records the first that is an internet address is the answer,
/// whatever stands before it.
pub proof fn law_reply(
    p: &[u8],
    r: Option<u32>,
    head: Seq<u8>,
    asked: Name,
    kind: Seq<u8>,
    recs: Seq<Rec>,
    tail: Seq<u8>,
    n: int,
    k: int,
)
    requires
        p@ == answers::packet(head, asked, kind, recs, tail),
        answers::good_head(head, n),
        recs.len() <= n,
        recs.len() <= MAX_ANSWERS + 1,
        asked.ok(),
        kind.len() == 4,
        forall|i: int| 0 <= i < recs.len() ==> (#[trigger] recs[i]).ok(),
        0 <= k < recs.len(),
        recs[k].typ == 1 && recs[k].class == 1 && recs[k].data.len() == 4,
        forall|i: int| 0 <= i < k ==> (#[trigger] recs[i]).typ != 1 || recs[i].class != 1 || recs[i].data.len() != 4,
        call_ensures(dns::dns_parse_reply, (p,), r),
    ensures
        r is Some,
        r->0 == recs[k].data[0] * 0x100_0000 + recs[k].data[1] * 0x1_0000 + recs[k].data[2] * 0x100 + recs[k].data[3],
{
    answers::law_first_address_is_found(head, asked, kind, recs, tail, n, k);
}

/// Without one there is no answer.
pub proof fn law_reply_without_address(
    p: &[u8],
    r: Option<u32>,
    head: Seq<u8>,
    asked: Name,
    kind: Seq<u8>,
    recs: Seq<Rec>,
    tail: Seq<u8>,
)
    requires
        p@ == answers::packet(head, asked, kind, recs, tail),
        answers::good_head(head, recs.len() as int),
        1 <= recs.len() <= MAX_ANSWERS + 1,
        asked.ok(),
        kind.len() == 4,
        forall|i: int| 0 <= i < recs.len() ==> (#[trigger] recs[i]).ok(),
        forall|i: int|
            0 <= i < recs.len() ==> (#[trigger] recs[i]).typ != 1 || recs[i].class != 1 || recs[i].data.len() != 4,
        call_ensures(dns::dns_parse_reply, (p,), r),
    ensures
        r is None,
{
    answers::law_no_address_gives_none(head, asked, kind, recs, tail);
}

/// A question holds the labels of the name that was asked, in order.
pub proof fn law_question(name: &[u8], r: Option<Vec<u8>>, l: Seq<Seq<u8>>, dots: nat)
    requires
        1 <= l.len() <= MAX_LABELS,
        forall|x: int| 0 <= x < l.len() ==> answers::label_ok(#[trigger] l[x]),
        answers::dotted(l).len() + dots + 18 <= MAX_QUERY,
        name@ == answers::dotted(l) + Seq::new(dots, |i: int| 0x2eu8),
        call_ensures(dns::build_query, (name,), r),
    ensures
        r is Some,
        (r->0)@.skip(12) == answers::labels_bytes(l) + seq![0u8] + seq![0u8, 1u8, 0u8, 1u8],
        (r->0)@[4] == 0 && (r->0)@[5] == 1,
{
    answers::law_question_names_the_host(l, dots);
}

/// Four numbers up to 255 with dots between are an address, the first the
/// highest byte.
pub proof fn law_address(s: &[u8], r: Option<u32>, a: Seq<u8>, b: Seq<u8>, c: Seq<u8>, d: Seq<u8>)
    requires
        words::octet(a),
        words::octet(b),
        words::octet(c),
        words::octet(d),
        s@ == words::dotted4(a, b, c, d),
        call_ensures(web::parse_ip, (s,), r),
    ensures
        r is Some,
        r->0 == words::worth(a, 10) * 0x100_0000 + words::worth(b, 10) * 0x1_0000 + words::worth(c, 10) * 0x100
            + words::worth(d, 10),
{
    words::law_dotted_numbers_are_an_address(a, b, c, d);
}

// ---- numbers and words ----

/// A number that is printed into a buffer with room reads back as it was.
pub proof fn law_printed(buf: &mut [u8], v: usize, r: usize)
    requires
        call_ensures(fmt::fmt_dec, (buf, v), r) && r < old(buf)@.len(),
    ensures
        words::worth(final(buf)@.take(r as int), 10) == v,
        words::decimal(final(buf)@.take(r as int)),
        r > 1 ==> final(buf)@[0] != 0x30,
        final(buf)@.skip(r as int) == old(buf)@.skip(r as int),
{
    let d = fmt::digits(v as nat, 10);
    words::law_written_number_is_read_back(v as nat, 10);
    assert(final(buf)@.take(r as int) =~= d);
    assert(final(buf)@.skip(r as int) =~= old(buf)@.skip(r as int));
    assert forall|i: int| 0 <= i < d.len() implies 0x30 <= #[trigger] d[i] <= 0x39 by {
        assert(0 <= words::weight(d[i]) < 10);
    }
}

/// So it does in hexadecimal.
pub proof fn law_printed_hex(buf: &mut [u8], v: usize, r: usize)
    requires
        call_ensures(fmt::fmt_hex, (buf, v), r) && r < old(buf)@.len(),
    ensures
        words::worth(final(buf)@.take(r as int), 16) == v,
        r > 1 ==> final(buf)@[0] != 0x30,
        final(buf)@.skip(r as int) == old(buf)@.skip(r as int),
{
    words::law_written_number_is_read_back(v as nat, 16);
    assert(final(buf)@.take(r as int) =~= fmt::digits(v as nat, 16));
    assert(final(buf)@.skip(r as int) =~= old(buf)@.skip(r as int));
}

/// And in octal.
pub proof fn law_printed_oct(buf: &mut [u8], v: usize, r: usize)
    requires
        call_ensures(fmt::fmt_oct, (buf, v), r) && r < old(buf)@.len(),
    ensures
        words::worth(final(buf)@.take(r as int), 8) == v,
        r > 1 ==> final(buf)@[0] != 0x30,
        final(buf)@.skip(r as int) == old(buf)@.skip(r as int),
{
    words::law_written_number_is_read_back(v as nat, 8);
    assert(final(buf)@.take(r as int) =~= fmt::digits(v as nat, 8));
    assert(final(buf)@.skip(r as int) =~= old(buf)@.skip(r as int));
}

/// A number put behind what a buffer holds leaves what stands before it.
pub proof fn law_pushed(buf: &mut [u8], n: usize, v: usize, r: usize)
    requires
        n <= old(buf)@.len(),
        call_ensures(fmt::push_dec, (buf, n, v), r) && r < old(buf)@.len(),
    ensures
        n < r,
        words::worth(final(buf)@.subrange(n as int, r as int), 10) == v,
        final(buf)@.take(n as int) == old(buf)@.take(n as int),
        final(buf)@.skip(r as int) == old(buf)@.skip(r as int),
{
    words::law_written_number_is_read_back(v as nat, 10);
    assert(final(buf)@.subrange(n as int, r as int) =~= fmt::digits(v as nat, 10));
    assert(final(buf)@.take(n as int) =~= old(buf)@.take(n as int));
    assert(final(buf)@.skip(r as int) =~= old(buf)@.skip(r as int));
}

/// What is read as a decimal number is one, and no other text is.
pub proof fn law_decimal(s: &[u8], r: Option<usize>)
    requires
        call_ensures(argv::parse_dec, (s,), r),
    ensures
        r is Some <==> words::decimal(s@) && words::worth(s@, 10) <= usize::MAX,
        r is Some ==> r->0 == words::worth(s@, 10),
{
    words::law_decimal_is_read(s@);
    if words::decimal(s@) {
        words::lemma_dec(s@);
    }
}

/// What is printed is read again.
pub proof fn law_print_and_read(buf: &mut [u8], v: usize, n: usize, s: &[u8], r: Option<usize>)
    requires
        call_ensures(fmt::fmt_dec, (buf, v), n) && n < old(buf)@.len(),
        s@ == final(buf)@.take(n as int),
        call_ensures(argv::parse_dec, (s,), r),
    ensures
        r == Some(v),
{
    law_printed(buf, v, n);
    law_decimal(s, r);
}

/// A size in frames: a number alone is one, K, M and G count bytes and are
/// rounded up to whole frames.
pub proof fn law_size(b: &[u8], r: Option<usize>, d: Seq<u8>, c: u8)
    requires
        words::decimal(d),
        words::worth(d, 10) * 0x4000_0000 + 4095 <= usize::MAX,
        !(0x30 <= c <= 0x39),
        b@ == d || b@ == d.push(c),
        call_ensures(argv::parse_mem, (b,), r),
    ensures
        b@ == d ==> r is Some && r->0 == words::worth(d, 10),
        b@ == d.push(c) && (c == 0x4b || c == 0x6b) ==> r is Some && 4096 * (r->0) - 4096 < 1024 * words::worth(d, 10)
            <= 4096 * (r->0),
        b@ == d.push(c) && (c == 0x4d || c == 0x6d) ==> r is Some && 4096 * (r->0) == 0x10_0000 * words::worth(d, 10),
        b@ == d.push(c) && (c == 0x47 || c == 0x67) ==> r is Some && 4096 * (r->0) == 0x4000_0000 * words::worth(d, 10),
        b@ == d.push(c) && !(c == 0x4b || c == 0x6b || c == 0x4d || c == 0x6d || c == 0x47 || c == 0x67) ==> r is None,
{
    words::law_memory_size(d, c);
    words::lemma_dec(d);
}

/// A requirement is a name, and perhaps a version with `=` or `>=` before it.
pub proof fn law_requirement(
    t: &[u8],
    r: (&[u8], Option<(&[u8], u8)>),
    name: Seq<u8>,
    v: Seq<u8>,
)
    requires
        words::bare(name),
        t@ == name || t@ == name + seq![0x3du8] + v || t@ == name + seq![0x3eu8, 0x3du8] + v,
        call_ensures(argv::split_vreq, (t,), r),
    ensures
        r.0@ == name,
        t@ == name <==> r.1 is None,
        t@ == name + seq![0x3du8] + v ==> r.1 is Some && ((r.1)->0).0@ == v && ((r.1)->0).1 == 0,
        t@ == name + seq![0x3eu8, 0x3du8] + v ==> r.1 is Some && ((r.1)->0).0@ == v && ((r.1)->0).1 == 1,
{
    words::law_requirement_is_split(name, v);
    assert((name + seq![0x3du8] + v).len() > name.len());
    assert((name + seq![0x3eu8, 0x3du8] + v).len() > name.len());
}

// ---- pages ----

/// A request that fits is the method, the path, the host and the end, in order.
pub proof fn law_request(buf: &mut [u8], host: &[u8], path: &[u8], n: usize)
    requires
        text::b("GET ").len() + path@.len() + text::b(" HTTP/1.0\r\nHost: ").len() + host@.len() + text::b(
            "\r\nConnection: close\r\n\r\n",
        ).len() <= old(buf)@.len(),
        call_ensures(web::http_req, (buf, host, path), n),
    ensures
        final(buf)@.take(n as int) == text::b("GET ") + path@ + text::b(" HTTP/1.0\r\nHost: ") + host@ + text::b(
            "\r\nConnection: close\r\n\r\n",
        ),
        final(buf)@.skip(n as int) == old(buf)@.skip(n as int),
{
    words::law_request_text(host@, path@, old(buf)@.len() as int);
    let v = text::b("GET ") + path@ + text::b(" HTTP/1.0\r\nHost: ") + host@ + text::b(
        "\r\nConnection: close\r\n\r\n",
    );
    assert(final(buf)@.take(n as int) =~= v);
    assert(final(buf)@.skip(n as int) =~= old(buf)@.skip(n as int));
}

/// A reply is split at its first empty line; its status is the number behind
/// the first blank.
pub proof fn law_split(
    p: &[u8],
    r: (u16, usize),
    v: Seq<u8>,
    a: u8,
    b: u8,
    c: u8,
    rest: Seq<u8>,
    i: int,
)
    requires
        forall|j: int| 0 <= j < v.len() ==> #[trigger] v[j] != 0x20,
        0x30 <= a <= 0x39,
        0x30 <= b <= 0x39,
        0x30 <= c <= 0x39,
        p@ == v + seq![0x20u8, a, b, c] + rest,
        words::ends_head(p@, i),
        forall|j: int| 0 <= j < i ==> !#[trigger] words::ends_head(p@, j),
        call_ensures(web::http_split, (p,), r),
    ensures
        r.0 == (a - 0x30) * 100 + (b - 0x30) * 10 + (c - 0x30),
        r.1 == i + 4,
{
    words::law_first_empty_line(p@, 0);
    words::law_status_of_a_reply(v, a, b, c, rest);
    let d = seq![a, b, c];
    assert(d.drop_last() =~= seq![a, b]);
    assert(d.drop_last().drop_last() =~= seq![a]);
    assert(d.drop_last().drop_last().drop_last() =~= Seq::empty());
    reveal_with_fuel(words::worth, 4);
}

/// Without an empty line there is nothing to split.
pub proof fn law_no_split(p: &[u8], r: (u16, usize))
    requires
        forall|j: int| 0 <= j ==> !#[trigger] words::ends_head(p@, j),
        call_ensures(web::http_split, (p,), r),
    ensures
        r == (0u16, 0usize),
{
    words::law_first_empty_line(p@, 0);
    if web::blank(p@, 0) is Some {
        assert(words::ends_head(p@, web::blank(p@, 0)->0));
    }
}

/// A line is over at its end, at the end of what there is, or where the buffer
/// is full; else the next byte goes behind.
pub proof fn law_line(n: usize, cap: usize, r: i64, c: u8, l: Line)
    requires
        n < cap,
        call_ensures(calls::read_line, (n, cap, r, c), l),
    ensures
        l matches Line::Done { len } ==> (r <= 0 && len == n) || (r > 0 && len == n + 1 && (c == 0x0a || len == cap)),
        l matches Line::More { at } ==> r > 0 && at == n + 1 && at < cap && c != 0x0a,
{
}

// ---- calls ----

/// What a program asks for is what the kernel understands.
pub proof fn law_call_is_understood(c: Ecall, d: Call, p: u64, q: u64, n: u64, fd: i64, code: i32)
    requires
        call_ensures(call::decode, (c.id, c.a0, c.a1, c.a2), d),
        0 <= fd < 0x8000_0000,
    ensures
        call_ensures(calls::fork, (), c) ==> d == Call::Fork,
        call_ensures(calls::exit, (code,), c) ==> d == (Call::Exit { code }),
        call_ensures(calls::wait, (p,), c) ==> d == (Call::Wait { addr: p }),
        call_ensures(calls::pipe, (p,), c) ==> d == (Call::Pipe { addr: p }),
        call_ensures(calls::read, (fd, p, n), c) ==> d == (Call::Read { fd: fd as i32, buf: p, len: n }),
        call_ensures(calls::write, (fd, p, n), c) ==> d == (Call::Write { fd: fd as i32, buf: p, len: n }),
        call_ensures(calls::print, (p, n), c) ==> d == (Call::Write { fd: 1, buf: p, len: n }),
        call_ensures(calls::eprint, (p, n), c) ==> d == (Call::Write { fd: 2, buf: p, len: n }),
        call_ensures(calls::close, (fd,), c) ==> d == (Call::Close { fd: fd as i32 }),
        call_ensures(calls::kill, (fd,), c) ==> d == (Call::Kill { pid: fd as u64 }),
        call_ensures(calls::exec, (p, q), c) ==> d == (Call::Exec { path: p, argv: q }),
        call_ensures(calls::open, (p, code), c) ==> d == (Call::Open { path: p, flags: code }),
        call_ensures(calls::dup, (fd,), c) ==> d == (Call::Dup { fd: fd as i32 }),
        call_ensures(calls::getpid, (), c) ==> d == Call::GetPid,
        call_ensures(calls::sbrk, (code,), c) ==> d == (Call::Sbrk { inc: code }),
        call_ensures(calls::sleep, (n,), c) ==> d == (Call::Sleep { ticks: n }),
        call_ensures(calls::mkdir, (p,), c) ==> d == (Call::MkDir { path: p }),
        call_ensures(calls::link, (p, q), c) ==> d == (Call::Link { path: p, to: q }),
        call_ensures(calls::unlink, (p,), c) ==> d == (Call::Unlink { path: p }),
        call_ensures(calls::fstat, (fd, p), c) ==> d == (Call::Fstat { fd: fd as i32, out: p }),
        call_ensures(calls::yield_, (), c) ==> d == Call::Yield,
        call_ensures(calls::getdents, (p, q, n), c) ==> d == (Call::GetDents { path: p, buf: q, len: n }),
        call_ensures(calls::shutdown, (), c) ==> d == Call::Shutdown,
{
    assert((code as u64) as i32 == code) by (bit_vector);
}

// ---- lookups and programs ----

/// A lookup that is answered with an address is over, with it; one whose
/// question did not go out whole, or whose answer has none, is tried again, and
/// fails after the third time.
pub proof fn law_lookup(
    l: Lookup,
    r: i64,
    n: usize,
    m: Lookup,
    h: Lookup,
    q: i64,
    p: &[u8],
    k: Lookup,
    a: Option<u32>,
    attempt: u32,
    tries: u32,
)
    requires
        attempt < 3,
        tries < 200,
        0 < n <= MAX_QUERY,
        l == (Lookup::Ask { attempt, tries }),
        call_ensures(dns::on_send, (l, r, n), m),
        h == (Lookup::Hear { attempt, tries }),
        call_ensures(dns::on_recv, (h, q, p), k),
        call_ensures(dns::dns_parse_reply, (p,), a),
    ensures
        ({
            let next = if attempt < 2 {
                Lookup::Ask { attempt: (attempt + 1) as u32, tries: 0 }
            } else {
                Lookup::Failed
            };
            &&& r == n ==> m == (Lookup::Hear { attempt, tries: 0 })
            &&& r <= 0 && r != -2 ==> m == next
            &&& q > 0 && a is Some ==> k == (Lookup::Found { ip: a->0 })
            &&& q <= 0 && q != -2 ==> k == next
            &&& q == -2 ==> k == if tries < 199 {
                Lookup::Hear { attempt, tries: (tries + 1) as u32 }
            } else {
                next
            }
        }),
{
    if r <= 0 && r != -2 {
        words::law_lookup_asks_again(attempt, tries, n as int, p@, r, -2i64);
    }
    if q <= 0 && q != -2 {
        words::law_lookup_asks_again(attempt, tries, n as int, p@, q, -2i64);
    }
    if q == -2 {
        words::law_lookup_asks_again(attempt, tries, n as int, p@, -1i64, q);
    }
    if q > 0 && a is Some {
        words::law_lookup_finds(attempt, tries, tries, n as int, q, p@);
    }
    if r == n {
        if a is Some {
            words::law_lookup_finds(attempt, tries, tries, n as int, 1, p@);
        }
    }
}

/// An argument is the text up to its zero, and is there just where its number
/// is below how many there are; so is a setting, where there are not too many.
pub proof fn law_arguments(
    v: &Vec<Vec<u8>>,
    i: usize,
    r: Option<Vec<u8>>,
    e: Option<Vec<u8>>,
    n: usize,
    t: Seq<u8>,
    rest: Seq<u8>,
)
    requires
        forall|k: int| 0 <= k < t.len() ==> #[trigger] t[k] != 0,
        t.len() <= 128,
        i < v@.len() ==> v@[i as int]@ == t + seq![0u8] + rest,
        call_ensures(demo::argv_str, (v, i), r),
        call_ensures(demo::env_str, (v, i), e),
        call_ensures(demo::env_count, (v,), n),
    ensures
        r is Some <==> i < v@.len(),
        r is Some ==> (r->0)@ == t,
        e is Some <==> i < v@.len() <= 16,
        e is Some ==> (e->0)@ == t,
        n == v@.len(),
{
    words::law_string_ends_at_zero(t, rest, 256);
    words::law_string_ends_at_zero(t, rest, 128);
    assert(i < v@.len() ==> demo::texts(v@)[i as int] == v@[i as int]@);
}

/// A run that counts prints the word behind each number from 1 to its count, a
/// line each; a count that is none, or too high, or no word, is refused.
pub proof fn law_repeat(v: &Vec<Vec<u8>>, r: (Vec<u8>, i32))
    requires
        v@.len() == 3,
        words::decimal(v@[1]@),
        v@[1]@.len() <= 256,
        forall|x: int| 0 <= x < v@[2]@.len() ==> #[trigger] v@[2]@[x] != 0,
        v@[2]@.len() <= 256,
        words::worth(v@[1]@, 10) <= usize::MAX,
        call_ensures(demo::repeat, (v,), r),
    ensures
        r.1 == 0 <==> words::worth(v@[1]@, 10) <= 1000 && v@[2]@.len() > 0,
        r.1 == 0 ==> r.0@ == demo::lines(words::worth(v@[1]@, 10) as nat, v@[2]@),
{
    let c = v@[1]@;
    let w = v@[2]@;
    assert forall|x: int| 0 <= x < c.len() implies #[trigger] c[x] != 0 by {}
    words::law_string_ends_at_zero(c, Seq::empty(), 256);
    words::law_string_ends_at_zero(w, Seq::empty(), 256);
    words::law_decimal_is_read(c);
    words::lemma_dec(c);
    assert(demo::texts(v@)[1] == c && demo::texts(v@)[2] == w);
}

} // verus!
