//! Questions and replies as they are put together: what the look-up of a name
//! makes of them.
use crate::user::dns;
use crate::user::dns::{MAX_ANSWERS, MAX_LABEL, MAX_LABELS, MAX_QUERY, MAX_STEPS};
use vstd::prelude::*;

verus! {

// ---- names and records ----

/// Labels, each behind its length.
pub open spec fn labels_bytes(l: Seq<Seq<u8>>) -> Seq<u8>
    decreases l.len(),
{
    if l.len() == 0 {
        Seq::empty()
    } else {
        seq![l[0].len() as u8] + l[0] + labels_bytes(l.skip(1))
    }
}

/// A name in a packet: labels, and then its end or a reference to the rest.
pub struct Name {
    pub labels: Seq<Seq<u8>>,
    /// High and low byte of the reference, if there is one.
    pub rest: Option<(u8, u8)>,
}

impl Name {
    pub open spec fn bytes(self) -> Seq<u8> {
        labels_bytes(self.labels) + match self.rest {
            Some((h, l)) => seq![h, l],
            None => seq![0u8],
        }
    }

    pub open spec fn ok(self) -> bool {
        &&& self.labels.len() <= MAX_STEPS
        &&& forall|i: int| 0 <= i < self.labels.len() ==> 1 <= (#[trigger] self.labels[i]).len() <= 63
        &&& self.rest matches Some((h, _)) ==> h >= 0xc0
    }
}

/// A record of a reply.
pub struct Rec {
    pub name: Name,
    pub typ: u16,
    pub class: u16,
    pub ttl: Seq<u8>,
    pub data: Seq<u8>,
}

pub open spec fn two(v: int) -> Seq<u8> {
    seq![(v / 256) as u8, (v % 256) as u8]
}

impl Rec {
    pub open spec fn bytes(self) -> Seq<u8> {
        self.name.bytes() + (two(self.typ as int) + two(self.class as int) + self.ttl + two(
            self.data.len() as int,
        ) + self.data)
    }

    pub open spec fn ok(self) -> bool {
        self.name.ok() && self.ttl.len() == 4 && self.data.len() <= 0xffff
    }

    /// An internet address of four bytes.
    pub open spec fn is_address(self) -> bool {
        self.typ == 1 && self.class == 1 && self.data.len() == 4
    }

    pub open spec fn address(self) -> int {
        self.data[0] * 0x100_0000 + self.data[1] * 0x1_0000 + self.data[2] * 0x100 + self.data[3]
    }
}

/// Records one after the other.
pub open spec fn recs_bytes(r: Seq<Rec>) -> Seq<u8>
    decreases r.len(),
{
    if r.len() == 0 {
        Seq::empty()
    } else {
        r[0].bytes() + recs_bytes(r.skip(1))
    }
}

/// A reply: header, question, records, and whatever follows.
pub open spec fn packet(head: Seq<u8>, asked: Name, kind: Seq<u8>, recs: Seq<Rec>, tail: Seq<u8>) -> Seq<u8> {
    head + (asked.bytes() + (kind + (recs_bytes(recs) + tail)))
}

/// Header of a response without an error to one question, with `n` answers.
pub open spec fn good_head(head: Seq<u8>, n: int) -> bool {
    &&& head.len() == 12
    &&& head[2] >= 0x80
    &&& head[3] % 16 == 0
    &&& head[4] == 0 && head[5] == 1
    &&& head[6] * 256 + head[7] == n
}

// ---- reading them ----

proof fn lemma_past(p: Seq<u8>, o: int, n: Name, k: int)
    requires
        0 <= o,
        0 <= k,
        n.ok(),
        n.labels.len() + k <= MAX_STEPS,
        o + n.bytes().len() <= p.len(),
        p.subrange(o, o + n.bytes().len()) == n.bytes(),
    ensures
        dns::past_name(p, o, k) == Some(o + n.bytes().len()),
    decreases n.labels.len(),
{
    let b = n.bytes();
    let s = p.subrange(o, o + b.len());
    if n.labels.len() == 0 {
        assert(p[o] == s[0]);
        if n.rest is Some {
            assert(s.len() == 2);
        }
    } else {
        let l = n.labels[0];
        let m = Name { labels: n.labels.skip(1), rest: n.rest };
        assert(b =~= seq![l.len() as u8] + l + m.bytes());
        assert(p[o] == s[0] && s[0] == l.len());
        assert forall|i: int| 0 <= i < m.labels.len() implies 1 <= (#[trigger] m.labels[i]).len() <= 63 by {
            assert(m.labels[i] == n.labels[i + 1]);
        }
        let q = o + 1 + l.len();
        assert(p.subrange(q, q + m.bytes().len()) =~= m.bytes()) by {
            assert forall|i: int| 0 <= i < m.bytes().len() implies p[q + i] == m.bytes()[i] by {
                assert(s[1 + l.len() + i] == p[q + i]);
                assert(b[1 + l.len() + i] == m.bytes()[i]);
            }
        }
        assert(m.bytes().len() >= 1);
        lemma_past(p, q, m, k + 1);
    }
}

/// One record at an offset.
proof fn lemma_rec(p: Seq<u8>, o: int, r: Rec)
    requires
        0 <= o,
        r.ok(),
        o + r.bytes().len() <= p.len(),
        p.subrange(o, o + r.bytes().len()) == r.bytes(),
    ensures
        ({
            let h = o + r.name.bytes().len();
            &&& dns::past_name(p, o, 0) == Some(h)
            &&& dns::be2(p, h) == r.typ
            &&& dns::be2(p, h + 2) == r.class
            &&& dns::be2(p, h + 8) == r.data.len()
            &&& p.subrange(h + 10, h + 10 + r.data.len()) == r.data
            &&& o + r.bytes().len() == h + 10 + r.data.len()
        }),
{
    let nb = r.name.bytes();
    let b = r.bytes();
    let s = p.subrange(o, o + b.len());
    let h = o + nb.len();
    assert(p.subrange(o, h) =~= nb) by {
        assert forall|i: int| 0 <= i < nb.len() implies p[o + i] == nb[i] by {
            assert(s[i] == p[o + i] && b[i] == nb[i]);
        }
    }
    lemma_past(p, o, r.name, 0);
    let n = nb.len() as int;
    let t = two(r.typ as int) + two(r.class as int) + r.ttl + two(r.data.len() as int) + r.data;
    assert forall|i: int| 0 <= i < t.len() implies p[h + i] == t[i] by {
        assert(s[n + i] == p[h + i] && b[n + i] == t[i]);
    }
    assert(p[h] == t[0] && p[h + 1] == t[1] && p[h + 2] == t[2] && p[h + 3] == t[3]);
    assert(p[h + 8] == t[8] && p[h + 9] == t[9]);
    assert(p.subrange(h + 10, h + 10 + r.data.len()) =~= r.data) by {
        assert forall|i: int| 0 <= i < r.data.len() implies p[h + 10 + i] == r.data[i] by {
            assert(t[10 + i] == r.data[i]);
            assert(p[h + (10 + i)] == t[10 + i]);
        }
    }
}

/// Records from `ai` on, at an offset.
proof fn lemma_scan(p: Seq<u8>, o: int, recs: Seq<Rec>, ai: int, an: int, k: int)
    requires
        0 <= o,
        0 <= ai,
        ai + recs.len() <= an,
        ai + recs.len() <= MAX_ANSWERS + 1,
        forall|i: int| 0 <= i < recs.len() ==> (#[trigger] recs[i]).ok(),
        o + recs_bytes(recs).len() <= p.len(),
        p.subrange(o, o + recs_bytes(recs).len()) == recs_bytes(recs),
        0 <= k <= recs.len(),
        forall|i: int| 0 <= i < k ==> !(#[trigger] recs[i]).is_address(),
        k < recs.len() ==> recs[k].is_address(),
        k == recs.len() ==> an == ai + recs.len(),
    ensures
        dns::scan(p, o, ai, an) == if k < recs.len() {
            Some(recs[k].address())
        } else {
            None
        },
    decreases recs.len(),
{
    if recs.len() > 0 {
        let r = recs[0];
        let rest = recs.skip(1);
        let all = recs_bytes(recs);
        let s = p.subrange(o, o + all.len());
        assert(all =~= r.bytes() + recs_bytes(rest));
        assert(p.subrange(o, o + r.bytes().len()) =~= r.bytes()) by {
            assert forall|i: int| 0 <= i < r.bytes().len() implies p[o + i] == r.bytes()[i] by {
                assert(s[i] == p[o + i] && all[i] == r.bytes()[i]);
            }
        }
        lemma_rec(p, o, r);
        let h = o + r.name.bytes().len();
        let q = o + r.bytes().len();
        if k == 0 {
            let d = p.subrange(h + 10, h + 10 + 4);
            assert(d == r.data);
            assert(d[0] == p[h + 10] && d[1] == p[h + 11] && d[2] == p[h + 12] && d[3] == p[h + 13]);
        } else {
            assert forall|i: int| 0 <= i < rest.len() implies (#[trigger] rest[i]).ok() by {
                assert(rest[i] == recs[i + 1]);
            }
            assert forall|i: int| 0 <= i < k - 1 implies !(#[trigger] rest[i]).is_address() by {
                assert(rest[i] == recs[i + 1]);
            }
            assert(k < recs.len() ==> rest[k - 1] == recs[k]);
            assert(p.subrange(q, q + recs_bytes(rest).len()) =~= recs_bytes(rest)) by {
                assert forall|i: int| 0 <= i < recs_bytes(rest).len() implies p[q + i] == recs_bytes(rest)[i] by {
                    assert(s[r.bytes().len() + i] == p[q + i]);
                    assert(all[r.bytes().len() + i] == recs_bytes(rest)[i]);
                }
            }
            lemma_scan(p, q, rest, ai + 1, an, k - 1);
        }
    }
}

// ---- laws ----

/// The address in a reply is the data of the first record that is an internet
/// address, whatever other records stand before it and whatever follows it.
pub proof fn law_first_address_is_found(
    head: Seq<u8>,
    asked: Name,
    kind: Seq<u8>,
    recs: Seq<Rec>,
    tail: Seq<u8>,
    n: int,
    k: int,
)
    requires
        good_head(head, n),
        recs.len() <= n,
        recs.len() <= MAX_ANSWERS + 1,
        asked.ok(),
        kind.len() == 4,
        forall|i: int| 0 <= i < recs.len() ==> (#[trigger] recs[i]).ok(),
        0 <= k < recs.len(),
        recs[k].is_address(),
        forall|i: int| 0 <= i < k ==> !(#[trigger] recs[i]).is_address(),
    ensures
        dns::reply(packet(head, asked, kind, recs, tail)) == Some(recs[k].address()),
{
    lemma_packet(head, asked, kind, recs, tail, n);
    lemma_scan(
        packet(head, asked, kind, recs, tail),
        16 + asked.bytes().len() as int,
        recs,
        0,
        n,
        k,
    );
}

/// A reply without an internet address in it gives none.
pub proof fn law_no_address_gives_none(head: Seq<u8>, asked: Name, kind: Seq<u8>, recs: Seq<Rec>, tail: Seq<u8>)
    requires
        good_head(head, recs.len() as int),
        1 <= recs.len() <= MAX_ANSWERS + 1,
        asked.ok(),
        kind.len() == 4,
        forall|i: int| 0 <= i < recs.len() ==> (#[trigger] recs[i]).ok(),
        forall|i: int| 0 <= i < recs.len() ==> !(#[trigger] recs[i]).is_address(),
    ensures
        dns::reply(packet(head, asked, kind, recs, tail)) is None,
{
    lemma_packet(head, asked, kind, recs, tail, recs.len() as int);
    lemma_scan(
        packet(head, asked, kind, recs, tail),
        16 + asked.bytes().len() as int,
        recs,
        0,
        recs.len() as int,
        recs.len() as int,
    );
}

/// A packet that is too short, no response, tells of an error, is not about one
/// question or has no answers gives no address, whatever else is in it.
pub proof fn law_no_reply_gives_none(p: Seq<u8>)
    requires
        p.len() < 12 || p[2] < 0x80 || p[3] % 16 != 0 || p[4] != 0 || p[5] != 1 || (p[6] == 0 && p[7] == 0),
    ensures
        dns::reply(p) is None,
{
}

proof fn lemma_packet(head: Seq<u8>, asked: Name, kind: Seq<u8>, recs: Seq<Rec>, tail: Seq<u8>, n: int)
    requires
        good_head(head, n),
        n >= 1,
        asked.ok(),
        kind.len() == 4,
    ensures
        ({
            let p = packet(head, asked, kind, recs, tail);
            let o = 16 + asked.bytes().len() as int;
            &&& o + recs_bytes(recs).len() <= p.len()
            &&& p.subrange(o, o + recs_bytes(recs).len()) == recs_bytes(recs)
            &&& dns::reply(p) == dns::scan(p, o, 0, n)
        }),
{
    let p = packet(head, asked, kind, recs, tail);
    let a = asked.bytes();
    let o = 16 + a.len() as int;
    assert(p.subrange(12, 12 + a.len() as int) =~= a);
    lemma_past(p, 12, asked, 0);
    assert(p.subrange(o, o + recs_bytes(recs).len()) =~= recs_bytes(recs));
    assert(p[2] == head[2] && p[3] == head[3] && p[4] == head[4] && p[5] == head[5] && p[6] == head[6] && p[7]
        == head[7]);
}

// ---- the question ----

/// Labels with dots between them.
pub open spec fn dotted(l: Seq<Seq<u8>>) -> Seq<u8>
    decreases l.len(),
{
    if l.len() == 0 {
        Seq::empty()
    } else if l.len() == 1 {
        l[0]
    } else {
        l[0] + seq![0x2eu8] + dotted(l.skip(1))
    }
}

/// A label of a host name.
pub open spec fn label_ok(l: Seq<u8>) -> bool {
    1 <= l.len() <= MAX_LABEL && forall|i: int| 0 <= i < l.len() ==> l[i] != 0x2e
}

proof fn lemma_label_ends(s: Seq<u8>, i: int, k: int, l: int, end: int)
    requires
        0 <= i <= k <= i + l <= end <= s.len(),
        forall|x: int| i <= x < i + l ==> s[x] != 0x2e,
        i + l == end || s[i + l] == 0x2e,
    ensures
        dns::label_end(s, k, end) == i + l,
    decreases i + l - k,
{
    if k < i + l {
        lemma_label_ends(s, i, k + 1, l, end);
    }
}

proof fn lemma_labels(s: Seq<u8>, i: int, l: Seq<Seq<u8>>, end: int, li: int, n: int)
    requires
        0 <= i,
        end <= s.len(),
        end == i + dotted(l).len(),
        s.subrange(i, end) == dotted(l),
        forall|x: int| 0 <= x < l.len() ==> label_ok(#[trigger] l[x]),
        li + l.len() <= MAX_LABELS,
        l.len() > 0 ==> n + dotted(l).len() + 6 <= MAX_QUERY,
    ensures
        dns::labels(s, i, end, li, n) == Some(labels_bytes(l)),
    decreases l.len(),
{
    if l.len() > 0 {
        let a = l[0];
        let rest = l.skip(1);
        let d = dotted(l);
        assert(label_ok(a));
        assert forall|x: int| i <= x < i + a.len() implies s[x] != 0x2e by {
            assert(s.subrange(i, end)[x - i] == s[x]);
            assert(d[x - i] == a[x - i]);
        }
        if l.len() > 1 {
            assert(s.subrange(i, end)[a.len() as int] == s[i + a.len()]);
            assert(d[a.len() as int] == 0x2e);
        }
        lemma_label_ends(s, i, i, a.len() as int, end);
        assert(s.subrange(i, i + a.len()) =~= a) by {
            assert forall|x: int| 0 <= x < a.len() implies s[i + x] == a[x] by {
                assert(s.subrange(i, end)[x] == s[i + x]);
                assert(d[x] == a[x]);
            }
        }
        assert forall|x: int| 0 <= x < rest.len() implies label_ok(#[trigger] rest[x]) by {
            assert(rest[x] == l[x + 1]);
        }
        let j = i + a.len();
        if l.len() > 1 {
            let q = j + 1;
            assert(s.subrange(q, end) =~= dotted(rest)) by {
                assert forall|x: int| 0 <= x < dotted(rest).len() implies s[q + x] == dotted(rest)[x] by {
                    assert(s.subrange(i, end)[a.len() + 1 + x] == s[q + x]);
                    assert(d[a.len() + 1 + x] == dotted(rest)[x]);
                }
            }
            lemma_labels(s, q, rest, end, li + 1, n + 1 + a.len());
            assert(j < end) by {
                assert(label_ok(l[1]));
                assert(rest[0] == l[1]);
            }
        } else {
            assert(rest.len() == 0);
            assert(dotted(rest).len() == 0);
            assert(s.subrange(j, end) =~= dotted(rest));
            lemma_labels(s, j, rest, end, li + 1, n + 1 + a.len());
        }
    } else {
        assert(labels_bytes(l) =~= Seq::<u8>::empty());
    }
}

proof fn lemma_name_end(s: Seq<u8>, n: int, k: int)
    requires
        0 <= k <= n <= s.len(),
        forall|i: int| k <= i < n ==> s[i] == 0x2e,
        k > 0 ==> s[k - 1] != 0x2e,
    ensures
        dns::name_end(s, n) == k,
    decreases n,
{
    if n > k {
        lemma_name_end(s, n - 1, k);
    }
}

proof fn lemma_dotted_ends(l: Seq<Seq<u8>>)
    requires
        l.len() > 0,
        forall|x: int| 0 <= x < l.len() ==> label_ok(#[trigger] l[x]),
    ensures
        dotted(l).len() > 0,
        dotted(l).last() != 0x2e,
    decreases l.len(),
{
    assert(label_ok(l[0]));
    if l.len() > 1 {
        let rest = l.skip(1);
        assert forall|x: int| 0 <= x < rest.len() implies label_ok(#[trigger] rest[x]) by {
            assert(rest[x] == l[x + 1]);
        }
        lemma_dotted_ends(rest);
    }
}

/// The question for a host name given as labels with dots between them, and
/// dots at its end or not, holds these labels, each behind its length, and asks
/// for an internet address; reading the name in it leads just behind it.
pub proof fn law_question_names_the_host(l: Seq<Seq<u8>>, dots: nat)
    requires
        1 <= l.len() <= MAX_LABELS,
        forall|x: int| 0 <= x < l.len() ==> label_ok(#[trigger] l[x]),
        dotted(l).len() + dots + 18 <= MAX_QUERY,
    ensures
        ({
            let name = dotted(l) + Seq::new(dots, |i: int| 0x2eu8);
            let n = Name { labels: l, rest: None };
            &&& dns::query(name) matches Some(q) && q.len() == 12 + n.bytes().len() + 4 && q.skip(12)
                == n.bytes() + seq![0u8, 1u8, 0u8, 1u8] && q[2] == 1 && q[3] == 0 && q[4] == 0 && q[5] == 1
                && (forall|i: int| 6 <= i < 12 ==> q[i] == 0) && dns::past_name(q, 12, 0) == Some(q.len() - 4)
        }),
{
    let d = dotted(l);
    let name = d + Seq::new(dots, |i: int| 0x2eu8);
    let n = Name { labels: l, rest: None };
    lemma_dotted_ends(l);
    assert(name[d.len() - 1] == d.last());
    lemma_name_end(name, name.len() as int, d.len() as int);
    assert(name.subrange(0, d.len() as int) =~= d);
    lemma_labels(name, 0, l, d.len() as int, 0, 12);
    let q = dns::query(name)->0;
    assert(q.skip(12) =~= n.bytes() + seq![0u8, 1u8, 0u8, 1u8]);
    assert(q.subrange(12, 12 + n.bytes().len() as int) =~= n.bytes());
    assert forall|i: int| 0 <= i < l.len() implies 1 <= (#[trigger] n.labels[i]).len() <= 63 by {
        assert(label_ok(l[i]));
    }
    lemma_past(q, 12, n, 0);
}

} // verus!
