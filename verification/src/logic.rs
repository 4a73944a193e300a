//! Small pieces of pure logic: page-table entries, the checksum of the
//! journal, a queue, and the choice by weighted service.
use crate::fs::dev;
use crate::fs::dev::SECTOR;
use crate::fs::jnl;
use vstd::prelude::*;

verus! {

pub const PTE_V: u64 = 1;

pub const PTE_R: u64 = 2;

pub const PTE_W: u64 = 4;

pub const PTE_X: u64 = 8;

pub const PTE_U: u64 = 16;

// ---- page-table entries ----

/// An entry: frame number above ten bits of flags.
pub open spec fn entry(ppn: u64, flags: u64) -> u64 {
    (ppn << 10) | (flags & 0x3ff)
}

pub fn pte_new(ppn: u64, flags: u64) -> (e: u64)
    ensures
        e == entry(ppn, flags),
{
    (ppn << 10) | (flags & 0x3ff)
}

pub fn pte_ppn(pte: u64) -> (p: u64)
    ensures
        p == (pte >> 10) & 0xfff_ffff_ffff,
{
    (pte >> 10) & 0xfff_ffff_ffff
}

pub fn pte_flags(pte: u64) -> (f: u64)
    ensures
        f == pte & 0x3ff,
{
    pte & 0x3ff
}

/// The three indices of an address, the lowest level first.
pub fn vpn_split(va: u64) -> (v: [u64; 3])
    ensures
        v@ == seq![(va >> 12) & 0x1ff, (va >> 21) & 0x1ff, (va >> 30) & 0x1ff],
{
    let v = [(va >> 12) & 0x1ff, (va >> 21) & 0x1ff, (va >> 30) & 0x1ff];
    assert(v@ =~= seq![(va >> 12) & 0x1ff, (va >> 21) & 0x1ff, (va >> 30) & 0x1ff]);
    v
}

/// Value of the register that selects a page table.
pub fn satp_token(mode: u64, asid: u64, ppn: u64) -> (t: u64)
    ensures
        t == (mode << 60) | (asid << 44) | ppn,
{
    (mode << 60) | (asid << 44) | ppn
}

/// An entry gives back its frame number and its flags.
pub proof fn law_entry_returns(ppn: u64, flags: u64)
    requires
        ppn <= 0xfff_ffff_ffff,
    ensures
        (entry(ppn, flags) >> 10) & 0xfff_ffff_ffff == ppn,
        entry(ppn, flags) & 0x3ff == flags & 0x3ff,
{
    assert((((ppn << 10) | (flags & 0x3ff)) >> 10) & 0xfff_ffff_ffff == ppn && ((ppn << 10) | (flags
        & 0x3ff)) & 0x3ff == flags & 0x3ff) by (bit_vector)
        requires
            ppn <= 0xfff_ffff_ffff,
    ;
}

/// The indices and the offset within the page make up the address.
pub proof fn law_split_returns(va: u64)
    requires
        va <= 0x7f_ffff_ffff,
    ensures
        (((va >> 30) & 0x1ff) << 30) | (((va >> 21) & 0x1ff) << 21) | (((va >> 12) & 0x1ff) << 12) | (va
            & 0xfff) == va,
{
    assert((((va >> 30) & 0x1ff) << 30) | (((va >> 21) & 0x1ff) << 21) | (((va >> 12) & 0x1ff) << 12)
        | (va & 0xfff) == va) by (bit_vector)
        requires
            va <= 0x7f_ffff_ffff,
    ;
}

/// Mode, space and frame number of the register do not mix.
pub proof fn law_token_parts(mode: u64, asid: u64, ppn: u64)
    requires
        mode <= 15,
        asid <= 0xffff,
        ppn <= 0xfff_ffff_ffff,
    ensures
        ((mode << 60) | (asid << 44) | ppn) >> 60 == mode,
        (((mode << 60) | (asid << 44) | ppn) >> 44) & 0xffff == asid,
        ((mode << 60) | (asid << 44) | ppn) & 0xfff_ffff_ffff == ppn,
{
    assert(((mode << 60) | (asid << 44) | ppn) >> 60 == mode && (((mode << 60) | (asid << 44) | ppn) >> 44)
        & 0xffff == asid && ((mode << 60) | (asid << 44) | ppn) & 0xfff_ffff_ffff == ppn) by (bit_vector)
        requires
            mode <= 15,
            asid <= 0xffff,
            ppn <= 0xfff_ffff_ffff,
    ;
}

// ---- the journal's checksum ----

/// Checksum of a record: it binds sequence number, sector and data.
pub fn jnl_crc(seq: u32, lba: u32, data: &[u8; SECTOR]) -> (r: u32)
    ensures
        r == jnl::crc_of(dev::le4(seq) + dev::le4(lba) + data@),
{
    jnl::plain_crc(seq, lba, data)
}

pub fn jnl_r32(b: &[u8], o: usize) -> (v: u32)
    requires
        o + 4 <= b@.len(),
    ensures
        v == dev::word(b@, o as int),
{
    dev::r32(b, o)
}

pub fn jnl_w32(b: &mut [u8], o: usize, v: u32)
    requires
        o + 4 <= old(b)@.len(),
    ensures
        final(b)@ == dev::with_word(old(b)@, o as int, v),
{
    dev::w32(b, o, v)
}

proof fn lemma_bits_apart(a: u32, b: u32, k: int)
    requires
        a != b,
        0 <= k,
    ensures
        jnl::crc_bits(a, k) != jnl::crc_bits(b, k),
    decreases k,
{
    if k > 0 {
        lemma_bits_apart(a, b, k - 1);
        let c = jnl::crc_bits(a, k - 1);
        let d = jnl::crc_bits(b, k - 1);
        let x = if c & 1 != 0 {
            0xedb8_8320u32
        } else {
            0
        };
        let y = if d & 1 != 0 {
            0xedb8_8320u32
        } else {
            0
        };
        assert((c >> 1) ^ x != (d >> 1) ^ y) by (bit_vector)
            requires
                c != d,
                x == (if c & 1 != 0 {
                    0xedb8_8320u32
                } else {
                    0
                }),
                y == (if d & 1 != 0 {
                    0xedb8_8320u32
                } else {
                    0
                }),
        ;
    }
}

/// Checksums that differ stay different over the same bytes.
proof fn lemma_run_apart(a: u32, b: u32, s: Seq<u8>)
    requires
        a != b,
    ensures
        jnl::crc_run(a, s) != jnl::crc_run(b, s),
    decreases s.len(),
{
    if s.len() > 0 {
        lemma_run_apart(a, b, s.drop_last());
        let c = jnl::crc_run(a, s.drop_last());
        let d = jnl::crc_run(b, s.drop_last());
        let x = s.last() as u32;
        assert(c ^ x != d ^ x) by (bit_vector)
            requires
                c != d,
        ;
        lemma_bits_apart(c ^ x, d ^ x, 8);
    }
}

proof fn lemma_run_concat(c: u32, p: Seq<u8>, s: Seq<u8>)
    ensures
        jnl::crc_run(c, p + s) == jnl::crc_run(jnl::crc_run(c, p), s),
    decreases s.len(),
{
    if s.len() == 0 {
        assert(p + s =~= p);
    } else {
        lemma_run_concat(c, p, s.drop_last());
        assert((p + s).drop_last() =~= p + s.drop_last());
    }
}

/// A record of which one byte changed, be it of the sequence number, the
/// sector or the data, does not pass for the one that was written.
pub proof fn law_checksum_binds(b: Seq<u8>, i: int, v: u8)
    requires
        0 <= i < b.len(),
        v != b[i],
    ensures
        jnl::crc_of(b.update(i, v)) != jnl::crc_of(b),
{
    let c0 = 0xffff_ffffu32;
    let p = b.take(i);
    let s = b.skip(i + 1);
    let d = b.update(i, v);
    assert(b =~= p.push(b[i]) + s);
    assert(d =~= p.push(v) + s);
    lemma_run_concat(c0, p.push(b[i]), s);
    lemma_run_concat(c0, p.push(v), s);
    let r = jnl::crc_run(c0, p);
    assert(p.push(b[i]).drop_last() =~= p);
    assert(p.push(v).drop_last() =~= p);
    let x = b[i] as u32;
    let y = v as u32;
    assert(r ^ x != r ^ y) by (bit_vector)
        requires
            x != y,
    ;
    lemma_bits_apart(r ^ x, r ^ y, 8);
    lemma_run_apart(
        jnl::crc_run(c0, p.push(b[i])),
        jnl::crc_run(c0, p.push(v)),
        s,
    );
    let m = jnl::crc_run(c0, b);
    let n = jnl::crc_run(c0, d);
    assert(!m != !n) by (bit_vector)
        requires
            m != n,
    ;
}

// ---- a queue ----

/// Processes in the order they came.
pub struct RunQueue {
    q: Vec<usize>,
}

impl View for RunQueue {
    type V = Seq<usize>;

    closed spec fn view(&self) -> Seq<usize> {
        self.q@
    }
}

impl RunQueue {
    pub fn new() -> (q: RunQueue)
        ensures
            q@ == Seq::<usize>::empty(),
    {
        RunQueue { q: Vec::new() }
    }

    pub fn push(&mut self, pid: usize)
        ensures
            final(self)@ == old(self)@.push(pid),
    {
        self.q.push(pid);
    }

    pub fn pop(&mut self) -> (r: Option<usize>)
        ensures
            old(self)@.len() == 0 ==> r is None && final(self)@ == old(self)@,
            old(self)@.len() > 0 ==> r == Some(old(self)@[0]) && final(self)@ == old(self)@.skip(1),
    {
        if self.q.len() == 0 {
            None
        } else {
            let r: usize = self.q.remove(0);
            assert(self@ =~= old(self)@.skip(1));
            Some(r)
        }
    }

    pub fn len(&self) -> (n: usize)
        ensures
            n == self@.len(),
    {
        self.q.len()
    }
}

impl Default for RunQueue {
    fn default() -> (q: RunQueue)
        ensures
            q@ == Seq::<usize>::empty(),
    {
        RunQueue::new()
    }
}

// ---- frames handed out in order ----

pub struct FrameMock {
    pub next: usize,
    pub end: usize,
}

impl FrameMock {
    pub fn new(start: usize, end: usize) -> (f: FrameMock)
        ensures
            f == (FrameMock { next: start, end }),
    {
        FrameMock { next: start, end }
    }

    /// The next frame; None when the rest is too small for one.
    pub fn grab(&mut self) -> (r: Option<usize>)
        requires
            old(self).next + 4096 <= usize::MAX,
        ensures
            old(self).next + 4096 <= old(self).end ==> r == Some(old(self).next) && *final(self) == (
            FrameMock { next: (old(self).next + 4096) as usize, end: old(self).end }),
            old(self).next + 4096 > old(self).end ==> r is None && *final(self) == *old(self),
    {
        if self.next + 4096 <= self.end {
            let p: usize = self.next;
            self.next = p + 4096;
            Some(p)
        } else {
            None
        }
    }
}

// ---- weighted service ----

pub open spec fn max64() -> int {
    u64::MAX as int
}

/// Service received, relative to a weight; a weight of 0 stands for 1.
pub open spec fn virtual_time(win_use: u64, share: u64) -> int {
    let n = if win_use * 1024 > max64() {
        max64()
    } else {
        win_use * 1024
    };
    n / (if share == 0 {
        1
    } else {
        share as int
    })
}

pub fn vruntime(win_use: u64, share: u64) -> (v: u64)
    ensures
        v == virtual_time(win_use, share),
{
    let w: u64 = if share == 0 {
        1
    } else {
        share
    };
    let n: u64 = match win_use.checked_mul(1024) {
        Some(n) => n,
        None => u64::MAX,
    };
    let ghost k = n as int;
    assert(k / (w as int) <= k) by (nonlinear_arith)
        requires
            k >= 0,
            w >= 1,
    ;
    n / w
}

/// The candidate among the first `n` with the least virtual time, the first
/// of those that tie.
pub open spec fn least(c: Seq<(usize, u64, u64)>, n: int) -> Option<int>
    decreases n,
{
    if n <= 0 {
        None
    } else {
        match least(c, n - 1) {
            None => Some(n - 1),
            Some(b) => if virtual_time(c[n - 1].1, c[n - 1].2) < virtual_time(c[b].1, c[b].2) {
                Some(n - 1)
            } else {
                Some(b)
            },
        }
    }
}

/// The process to run among candidates, each with the service and the weight
/// of its group.
pub fn best_pick(cands: &[(usize, u64, u64)]) -> (r: Option<usize>)
    ensures
        match least(cands@, cands@.len() as int) {
            Some(i) => 0 <= i < cands@.len() && r == Some(cands@[i].0),
            None => r is None && cands@.len() == 0,
        },
{
    let n: usize = cands.len();
    let mut best: Option<(usize, u64)> = None;
    let ghost mut b = 0int;
    let mut i: usize = 0;
    while i < n
        invariant
            n == cands@.len(),
            i <= n,
            best is None <==> i == 0,
            i == 0 ==> least(cands@, 0) is None,
            i > 0 ==> {
                &&& least(cands@, i as int) == Some(b)
                &&& 0 <= b < i
                &&& best matches Some((p, v)) && p == cands@[b].0 && v == virtual_time(
                    cands@[b].1,
                    cands@[b].2,
                )
            },
        decreases n - i,
    {
        let (pid, used, share) = cands[i];
        let v = vruntime(used, share);
        let wins = match best {
            None => true,
            Some((_, w)) => v < w,
        };
        if wins {
            best = Some((pid, v));
            proof {
                b = i as int;
            }
        }
        i += 1;
    }
    match best {
        Some((p, _)) => Some(p),
        None => None,
    }
}

/// The process that is picked was served least relative to its weight, and
/// before every other that was served as little.
pub proof fn law_pick_is_least(c: Seq<(usize, u64, u64)>, n: int, j: int)
    requires
        0 <= j < n <= c.len(),
    ensures
        least(c, n) matches Some(i) && 0 <= i < n && virtual_time(c[i].1, c[i].2) <= virtual_time(
            c[j].1,
            c[j].2,
        ) && (virtual_time(c[i].1, c[i].2) == virtual_time(c[j].1, c[j].2) ==> i <= j),
    decreases n,
{
    if j < n - 1 {
        law_pick_is_least(c, n - 1, j);
    } else if n > 1 {
        law_pick_is_least(c, n - 1, 0);
    }
}

/// A process that was not served at all is picked before any that was,
/// whatever the weights.
pub proof fn law_unserved_first(used: u64, share: u64, other: u64)
    requires
        virtual_time(used, share) > 0,
    ensures
        virtual_time(0, other) < virtual_time(used, share),
{
    let w = if other == 0 {
        1int
    } else {
        other as int
    };
    assert(0int / w == 0) by (nonlinear_arith)
        requires
            w >= 1,
    ;
}

/// Who used more is served later, and who has a greater share sooner; twice the
/// use at twice the share is the same, as long as it is no more than can be
/// counted.
pub proof fn law_time_is_weighed(used: u64, more: u64, share: u64, greater: u64)
    requires
        used <= more,
        0 < share <= greater,
    ensures
        virtual_time(used, share) <= virtual_time(more, share),
        virtual_time(used, greater) <= virtual_time(used, share),
        used < 0x8_0000_0000 && share < 0x8_0000_0000 ==> virtual_time((2 * used) as u64, (2 * share) as u64)
            == virtual_time(used, share),
        virtual_time(used, 0) == virtual_time(used, 1),
        used < 0x8_0000_0000 ==> virtual_time(used, 1024) == used,
{
    let n = if used * 1024 > max64() { max64() } else { used * 1024 };
    let m = if more * 1024 > max64() { max64() } else { more * 1024 };
    let s = share as int;
    let g = greater as int;
    assert(n / s <= m / s) by (nonlinear_arith)
        requires
            0 <= n <= m,
            s > 0,
    ;
    assert(n / g <= n / s) by (nonlinear_arith)
        requires
            0 <= n,
            0 < s <= g,
    ;
    let u = used as int;
    let d = 1024u64 as int;
    assert((u * 1024) / d == u) by (nonlinear_arith)
        requires
            d == 1024,
    ;
    assert((2 * n) / (2 * s) == n / s) by (nonlinear_arith)
        requires
            0 <= n,
            0 < s,
    ;
}

/// Of those that wait, the one is picked that used least for its share, and of
/// two that used as little the first.
pub proof fn law_best_is_picked(c: &[(usize, u64, u64)], r: Option<usize>, j: int)
    requires
        0 <= j < c@.len(),
        call_ensures(best_pick, (c,), r),
    ensures
        r is Some,
        exists|i: int|
            0 <= i < c@.len() && r == Some((#[trigger] c@[i]).0) && virtual_time(c@[i].1, c@[i].2) <= virtual_time(
                c@[j].1,
                c@[j].2,
            ) && (virtual_time(c@[i].1, c@[i].2) == virtual_time(c@[j].1, c@[j].2) ==> i <= j),
{
    law_pick_is_least(c@, c@.len() as int, j);
    let i = least(c@, c@.len() as int)->0;
    assert(r == Some(c@[i].0));
}

} // verus!
