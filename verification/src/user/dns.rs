//! Names looked up: the question, the answer, and the retries.
use vstd::prelude::*;

verus! {

/// Room for a question, labels in a name, bytes of a label.
pub const MAX_QUERY: usize = 300;

pub const MAX_LABELS: usize = 8;

pub const MAX_LABEL: usize = 63;

/// Answers looked at, and labels of a name skipped.
pub const MAX_ANSWERS: usize = 16;

pub const MAX_STEPS: usize = 16;

// ---- question ----

/// Length of a name without dots at its end, of the first `n` bytes.
pub open spec fn name_end(s: Seq<u8>, n: int) -> int
    decreases n,
{
    if n > 0 && s[n - 1] == 0x2e {
        name_end(s, n - 1)
    } else {
        n
    }
}

/// Where a label that starts at `i` ends, below `end`.
pub open spec fn label_end(s: Seq<u8>, i: int, end: int) -> int
    decreases end - i,
{
    if i < end && s[i] != 0x2e {
        label_end(s, i + 1, end)
    } else {
        i
    }
}

/// The labels from `i` on, each behind its length: `li` are done and `n` bytes
/// of the question are taken. None for an empty or long label, too many, or
/// no room.
pub open spec fn labels(s: Seq<u8>, i: int, end: int, li: int, n: int) -> Option<Seq<u8>>
    decreases end - i,
{
    if i >= end {
        Some(Seq::empty())
    } else {
        let j = label_end(s, i, end);
        let lab = j - i;
        if lab <= 0 || j > end || lab > MAX_LABEL || n + 1 + lab + 5 > MAX_QUERY || li + 1 > MAX_LABELS {
            None
        } else {
            match labels(
                s,
                if j < end {
                    j + 1
                } else {
                    j
                },
                end,
                li + 1,
                n + 1 + lab,
            ) {
                Some(rest) => Some(seq![lab as u8] + s.subrange(i, j) + rest),
                None => None,
            }
        }
    }
}

/// Identifier, recursion desired, one question.
pub open spec fn query_header() -> Seq<u8> {
    seq![0x12u8, 0x34u8, 1u8, 0u8, 0u8, 1u8, 0u8, 0u8, 0u8, 0u8, 0u8, 0u8]
}

/// The question for the address of a name.
pub open spec fn query(name: Seq<u8>) -> Option<Seq<u8>> {
    if name.len() + 16 > MAX_QUERY {
        None
    } else {
        match labels(name, 0, name_end(name, name.len() as int), 0, 12) {
            Some(l) => Some(query_header() + l + seq![0u8, 0u8, 1u8, 0u8, 1u8]),
            None => None,
        }
    }
}

proof fn lemma_label_end(s: Seq<u8>, i: int, end: int)
    requires
        0 <= i <= end <= s.len(),
    ensures
        i <= label_end(s, i, end) <= end,
    decreases end - i,
{
    if i < end && s[i] != 0x2e {
        lemma_label_end(s, i + 1, end);
    }
}

/// Builds the question for a name; dots at its end do not count.
pub fn build_query(name: &[u8]) -> (r: Option<Vec<u8>>)
    ensures
        match r {
            Some(v) => query(name@) == Some(v@),
            None => query(name@) is None,
        },
{
    let len: usize = name.len();
    if len > MAX_QUERY - 16 {
        return None;
    }
    let mut q: Vec<u8> = Vec::new();
    q.push(0x12);
    q.push(0x34);
    q.push(1);
    q.push(0);
    q.push(0);
    q.push(1);
    q.push(0);
    q.push(0);
    q.push(0);
    q.push(0);
    q.push(0);
    q.push(0);
    assert(q@ =~= query_header());
    let mut end: usize = len;
    while end > 0 && name[end - 1] == 0x2e
        invariant
            end <= len,
            len == name@.len(),
            name_end(name@, len as int) == name_end(name@, end as int),
        decreases end,
    {
        end -= 1;
    }
    let ghost all = labels(name@, 0, end as int, 0, 12);
    let ghost mut done = Seq::<u8>::empty();
    let mut li: usize = 0;
    let mut i: usize = 0;
    assert(q@ =~= query_header() + done);
    assert(all matches Some(l) ==> l =~= done + labels(name@, 0, end as int, 0, 12)->0);
    while i < end
        invariant
            end <= len,
            len == name@.len(),
            len <= MAX_QUERY - 16,
            i <= end,
            li <= MAX_LABELS,
            q@ == query_header() + done,
            q@.len() <= MAX_QUERY,
            all == labels(name@, 0, end as int, 0, 12),
            end == name_end(name@, len as int),
            all is Some <==> labels(name@, i as int, end as int, li as int, q@.len() as int) is Some,
            all is Some ==> all->0 == done + labels(
                name@,
                i as int,
                end as int,
                li as int,
                q@.len() as int,
            )->0,
        decreases end - i,
    {
        let ghost n0 = q@.len() as int;
        let ghost i0 = i as int;
        let ghost li0 = li as int;
        let mut j: usize = i;
        proof {
            lemma_label_end(name@, i as int, end as int);
        }
        while j < end && name[j] != 0x2e
            invariant
                i <= j <= end,
                end <= len,
                len == name@.len(),
                label_end(name@, i as int, end as int) == label_end(name@, j as int, end as int),
            decreases end - j,
        {
            j += 1;
        }
        let lab: usize = j - i;
        if lab == 0 || lab > MAX_LABEL || q.len() + 1 + lab + 5 > MAX_QUERY || li + 1 > MAX_LABELS {
            return None;
        }
        q.push(lab as u8);
        let mut k: usize = i;
        let ghost q1 = q@;
        assert(q@ =~= q1 + name@.subrange(i as int, i as int));
        while k < j
            invariant
                i <= k <= j,
                j <= name@.len(),
                q@ == q1 + name@.subrange(i as int, k as int),
            decreases j - k,
        {
            q.push(name[k]);
            k += 1;
            assert(q@ =~= q1 + name@.subrange(i as int, k as int));
        }
        li += 1;
        i = if j < end {
            j + 1
        } else {
            j
        };
        proof {
            let piece = seq![lab as u8] + name@.subrange(i0, j as int);
            let rest = labels(name@, i as int, end as int, li as int, n0 + 1 + lab);
            if rest is Some {
                assert(done + (piece + rest->0) =~= (done + piece) + rest->0);
            }
            done = done + piece;
            assert(q@ =~= query_header() + done);
            assert(q@.len() == n0 + 1 + lab);
        }
    }
    q.push(0);
    q.push(0);
    q.push(1);
    q.push(0);
    q.push(1);
    proof {
        assert(done + Seq::<u8>::empty() =~= done);
        assert(q@ =~= query_header() + done + seq![0u8, 0u8, 1u8, 0u8, 1u8]);
    }
    Some(q)
}

// ---- answer ----

/// Number of two bytes, the high one first.
pub open spec fn be2(p: Seq<u8>, o: int) -> int {
    p[o] * 256 + p[o + 1]
}

/// Offset past a name, which may end in a reference to another; `k` labels
/// were skipped. None where it leaves the packet or has too many labels.
pub open spec fn past_name(p: Seq<u8>, o: int, k: int) -> Option<int>
    decreases p.len() - o,
{
    if o >= p.len() {
        None
    } else if p[o] >= 0xc0 {
        if o + 1 >= p.len() {
            None
        } else {
            Some(o + 2)
        }
    } else if p[o] == 0 {
        Some(o + 1)
    } else if p[o] > 63 || o + 1 + p[o] > p.len() || k + 1 > MAX_STEPS {
        None
    } else {
        past_name(p, o + 1 + p[o], k + 1)
    }
}

pub fn dns_skip_name(p: &[u8], start: usize) -> (r: Option<usize>)
    requires
        start <= p@.len(),
    ensures
        match r {
            Some(e) => past_name(p@, start as int, 0) == Some(e as int) && start < e <= p@.len(),
            None => past_name(p@, start as int, 0) is None,
        },
{
    let n: usize = p.len();
    let mut o: usize = start;
    let mut k: usize = 0;
    while o < n
        invariant
            n == p@.len(),
            start <= o <= n,
            k <= MAX_STEPS,
            past_name(p@, start as int, 0) == past_name(p@, o as int, k as int),
        decreases n - o,
    {
        let b = p[o];
        if b >= 0xc0 {
            if o + 1 >= n {
                return None;
            }
            return Some(o + 2);
        }
        if b == 0 {
            return Some(o + 1);
        }
        let step: usize = b as usize;
        if b > 63 || step >= n - o || k + 1 > MAX_STEPS {
            return None;
        }
        o = o + 1 + step;
        k += 1;
    }
    None
}

/// The first address among the answers from `ai` on, at offset `o`.
pub open spec fn scan(p: Seq<u8>, o: int, ai: int, an: int) -> Option<int>
    decreases an - ai,
{
    if ai >= an || ai > MAX_ANSWERS {
        None
    } else {
        match past_name(p, o, 0) {
            None => None,
            Some(h) => {
                if h + 10 > p.len() || h + 10 + be2(p, h + 8) > p.len() {
                    None
                } else {
                    let d = h + 10;
                    if be2(p, h) == 1 && be2(p, h + 2) == 1 && be2(p, h + 8) == 4 {
                        Some(
                            p[d] * 0x100_0000 + p[d + 1] * 0x1_0000 + p[d + 2] * 0x100 + p[d + 3],
                        )
                    } else {
                        scan(p, d + be2(p, h + 8), ai + 1, an)
                    }
                }
            },
        }
    }
}

/// The address in a reply: a response without an error, to one question.
pub open spec fn reply(p: Seq<u8>) -> Option<int> {
    if p.len() < 12 || p[2] < 0x80 || p[3] % 16 != 0 || be2(p, 4) != 1 || be2(p, 6) == 0 {
        None
    } else {
        match past_name(p, 12, 0) {
            None => None,
            Some(o) => if o + 4 > p.len() {
                None
            } else {
                scan(p, o + 4, 0, be2(p, 6))
            },
        }
    }
}

/// Reads a reply: the first address in it.
pub fn dns_parse_reply(p: &[u8]) -> (r: Option<u32>)
    ensures
        match r {
            Some(v) => reply(p@) == Some(v as int),
            None => reply(p@) is None,
        },
{
    let n: usize = p.len();
    if n < 12 {
        return None;
    }
    if p[2] < 0x80 || p[3] % 16 != 0 {
        return None;
    }
    let qd: usize = p[4] as usize * 256 + p[5] as usize;
    let an: usize = p[6] as usize * 256 + p[7] as usize;
    if qd != 1 || an == 0 {
        return None;
    }
    let mut o: usize = match dns_skip_name(p, 12) {
        Some(e) => e,
        None => {
            return None;
        },
    };
    if n - o < 4 {
        return None;
    }
    o = o + 4;
    let mut ai: usize = 0;
    while ai < an
        invariant
            n == p@.len(),
            n >= 12,
            o <= n,
            ai <= an,
            ai <= MAX_ANSWERS,
            reply(p@) == scan(p@, o as int, ai as int, an as int),
        decreases an - ai,
    {
        let h: usize = match dns_skip_name(p, o) {
            Some(e) => e,
            None => {
                return None;
            },
        };
        if n - h < 10 {
            return None;
        }
        let typ: usize = p[h] as usize * 256 + p[h + 1] as usize;
        let cls: usize = p[h + 2] as usize * 256 + p[h + 3] as usize;
        let rdlen: usize = p[h + 8] as usize * 256 + p[h + 9] as usize;
        let d: usize = h + 10;
        if rdlen > n - d {
            return None;
        }
        if typ == 1 && cls == 1 && rdlen == 4 {
            return Some(
                p[d] as u32 * 0x100_0000 + p[d + 1] as u32 * 0x1_0000 + p[d + 2] as u32 * 0x100 + p[d
                    + 3] as u32,
            );
        }
        o = d + rdlen;
        ai += 1;
        if ai > MAX_ANSWERS {
            return None;
        }
    }
    None
}

// ---- retries ----

/// Attempts, and tries of a send or a receive within one.
pub const ATTEMPTS: u32 = 3;

pub const TRIES: u32 = 200;

/// What a socket answers when it has to be asked again.
pub const WOULD_BLOCK: i64 = -2;

/// Where a lookup stands.
#[derive(Clone, Copy, PartialEq, Eq, Structural, Debug)]
pub enum Lookup {
    /// Send the question.
    Ask { attempt: u32, tries: u32 },
    /// Receive a reply.
    Hear { attempt: u32, tries: u32 },
    Found { ip: u32 },
    Failed,
}

pub open spec fn retried(attempt: u32) -> Lookup {
    if attempt + 1 < ATTEMPTS {
        Lookup::Ask { attempt: (attempt + 1) as u32, tries: 0 }
    } else {
        Lookup::Failed
    }
}

fn retry(attempt: u32) -> (l: Lookup)
    requires
        attempt < ATTEMPTS,
    ensures
        l == retried(attempt),
{
    if attempt + 1 < ATTEMPTS {
        Lookup::Ask { attempt: attempt + 1, tries: 0 }
    } else {
        Lookup::Failed
    }
}

/// A lookup begins.
pub fn dns_resolve() -> (l: Lookup)
    ensures
        l == (Lookup::Ask { attempt: 0, tries: 0 }),
{
    Lookup::Ask { attempt: 0, tries: 0 }
}

pub open spec fn bounded(l: Lookup) -> bool {
    match l {
        Lookup::Ask { attempt, tries } => attempt < ATTEMPTS && tries < TRIES,
        Lookup::Hear { attempt, tries } => attempt < ATTEMPTS && tries < TRIES,
        _ => true,
    }
}

/// After a send of `n` bytes returned `r`. A socket that is not ready is asked
/// again a tick later.
pub open spec fn after_send(l: Lookup, r: i64, n: int) -> Lookup {
    match l {
        Lookup::Ask { attempt, tries } => if r == n {
            Lookup::Hear { attempt, tries: 0 }
        } else if r == WOULD_BLOCK && tries + 1 < TRIES {
            Lookup::Ask { attempt, tries: (tries + 1) as u32 }
        } else {
            retried(attempt)
        },
        _ => l,
    }
}

pub fn on_send(l: Lookup, r: i64, n: usize) -> (m: Lookup)
    requires
        bounded(l),
        n <= MAX_QUERY,
    ensures
        m == after_send(l, r, n as int),
        bounded(m),
{
    match l {
        Lookup::Ask { attempt, tries } => if r == n as i64 {
            Lookup::Hear { attempt, tries: 0 }
        } else if r == WOULD_BLOCK && tries + 1 < TRIES {
            Lookup::Ask { attempt, tries: tries + 1 }
        } else {
            retry(attempt)
        },
        other => other,
    }
}

/// After a receive returned `r`, with the packet if there was one.
pub open spec fn after_recv(l: Lookup, r: i64, p: Seq<u8>) -> Lookup {
    match l {
        Lookup::Hear { attempt, tries } => if r > 0 {
            match reply(p) {
                Some(ip) => Lookup::Found { ip: ip as u32 },
                None => retried(attempt),
            }
        } else if r == WOULD_BLOCK && tries + 1 < TRIES {
            Lookup::Hear { attempt, tries: (tries + 1) as u32 }
        } else {
            retried(attempt)
        },
        _ => l,
    }
}

pub fn on_recv(l: Lookup, r: i64, p: &[u8]) -> (m: Lookup)
    requires
        bounded(l),
    ensures
        m == after_recv(l, r, p@),
        bounded(m),
{
    match l {
        Lookup::Hear { attempt, tries } => if r > 0 {
            match dns_parse_reply(p) {
                Some(ip) => Lookup::Found { ip },
                None => retry(attempt),
            }
        } else if r == WOULD_BLOCK && tries + 1 < TRIES {
            Lookup::Hear { attempt, tries: tries + 1 }
        } else {
            retry(attempt)
        },
        other => other,
    }
}

/// Steps a lookup can still take.
pub open spec fn left(l: Lookup) -> int {
    match l {
        Lookup::Ask { attempt, tries } => (ATTEMPTS - attempt) * 2 * TRIES - tries,
        Lookup::Hear { attempt, tries } => (ATTEMPTS - attempt) * 2 * TRIES - TRIES - tries,
        _ => 0,
    }
}

/// A lookup ends: each send and each receive brings it closer to its end.
pub proof fn law_lookup_ends(l: Lookup, r: i64, n: int, p: Seq<u8>)
    requires
        bounded(l),
    ensures
        l is Ask ==> 0 <= left(after_send(l, r, n)) < left(l),
        l is Hear ==> 0 <= left(after_recv(l, r, p)) < left(l),
{
}

} // verus!
