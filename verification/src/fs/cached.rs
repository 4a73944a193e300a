//! What the cache of sectors is for: a sector that was read or written is not
//! fetched again, and what is fetched is what the device holds.
use crate::fs::blk;
use crate::fs::blk::{Blk, CacheV, SlotV};
use crate::fs::dev::{DevV, SECTOR};
use vstd::prelude::*;

verus! {

/// The slot is in use and was used since the hand last passed.
pub open spec fn fresh(s: SlotV) -> bool {
    s.valid && s.referenced
}

/// The slot that is replaced: the first from the hand on that is not fresh, or,
/// where all are, the one at the hand.
pub proof fn law_fresh_slots_stay(c: Seq<SlotV>, h: int)
    requires
        c.len() == 64,
        0 <= h < 64,
    ensures
        ({
            let (e, h2, i) = blk::victim_of(c, h, 64);
            &&& 0 <= i < 64 && h2 == (i + 1) % 64
            &&& fresh(c[i]) ==> i == h && forall|x: int| 0 <= x < 64 ==> fresh(#[trigger] c[x])
            &&& e.len() == 64
            &&& forall|x: int|
                0 <= x < 64 ==> (#[trigger] e[x]).lba == c[x].lba && e[x].valid == c[x].valid && e[x].data == c[x].data
        }),
{
    lemma_victim(c, h, 64);
    let i = blk::victim_of(c, h, 64).2;
    if fresh(c[i]) {
        assert forall|x: int| 0 <= x < 64 implies fresh(#[trigger] c[x]) by {
            let m = (x - h) % 64;
            assert((h + m) % 64 == x);
            assert(fresh(c[(h + m) % 64]));
        }
    }
}

proof fn lemma_victim(c: Seq<SlotV>, h: int, k: nat)
    requires
        c.len() == 64,
        0 <= h < 64,
        k <= 64,
    ensures
        ({
            let (e, h2, i) = blk::victim_of(c, h, k);
            &&& 0 <= i < 64 && h2 == (i + 1) % 64
            &&& exists|m: int|
                0 <= m <= k && i == #[trigger] ((h + m) % 64) && (m < k ==> !fresh(c[i])) && (m == k ==> forall|y: int|
                    0 <= y < k ==> fresh(c[#[trigger] ((h + y) % 64)]))
            &&& e.len() == 64
            &&& forall|x: int|
                0 <= x < 64 ==> (#[trigger] e[x]).lba == c[x].lba && e[x].valid == c[x].valid && e[x].data == c[x].data
        }),
    decreases k,
{
    let (e, h2, i) = blk::victim_of(c, h, k);
    if k == 0 || !fresh(c[h]) {
        assert(i == (h + 0) % 64);
    } else {
        let d = c.update(h, SlotV { referenced: false, ..c[h] });
        let g = (h + 1) % 64;
        lemma_victim(d, g, (k - 1) as nat);
        let m = choose|m: int|
            0 <= m <= k - 1 && i == #[trigger] ((g + m) % 64) && (m < k - 1 ==> !fresh(d[i])) && (m == k - 1 ==> forall|
                y: int,
            |
                0 <= y < k - 1 ==> fresh(d[#[trigger] ((g + y) % 64)]));
        assert((g + m) % 64 == (h + (m + 1)) % 64);
        if m < k - 1 {
            assert(i != h);
        } else {
            assert forall|y: int| 0 <= y < k implies fresh(c[#[trigger] ((h + y) % 64)]) by {
                if y > 0 {
                    assert((g + (y - 1)) % 64 == (h + y) % 64);
                    assert(fresh(d[(g + (y - 1)) % 64]));
                }
            }
        }
    }
}

/// The cache holds a sector, and knows that it was used.
pub open spec fn holds(c: CacheV, lba: u32) -> bool {
    exists|i: int| 0 <= i < c.slots.len() && (#[trigger] c.slots[i]).valid && c.slots[i].lba == lba
}

proof fn lemma_found(c: CacheV, lba: u32)
    requires
        holds(c, lba),
    ensures
        blk::find(c.slots, lba, 0) is Some,
{
    if blk::find(c.slots, lba, 0) is None {
        blk::lemma_find_none(c.slots, lba, 0);
    }
}

proof fn lemma_find(c: Seq<SlotV>, lba: u32, i: int)
    requires
        0 <= i,
    ensures
        blk::find(c, lba, i) matches Some(k) ==> i <= k < c.len() && c[k].valid && c[k].lba == lba,
    decreases c.len() - i,
{
    if i < c.len() {
        lemma_find(c, lba, i + 1);
    }
}

/// A sector that was read is held then, and the one behind it too if there is
/// one.
proof fn lemma_read_held(c: CacheV, d: DevV, lba: u32)
    requires
        c.slots.len() == 64,
        0 <= c.hand < 64,
        d.has(lba as int),
        d.secs.len() <= u32::MAX,
    ensures
        holds(c.after_read(d, lba), lba),
        blk::find(c.slots, lba, 0) is None && d.has(lba + 1) ==> holds(c.after_read(d, lba), (lba + 1) as u32),
{
    let r = c.after_read(d, lba);
    match blk::find(c.slots, lba, 0) {
        Some(i) => {
            lemma_find(c.slots, lba, 0);
            assert(r.slots[i].valid && r.slots[i].lba == lba);
        },
        None => {
            law_fresh_slots_stay(c.slots, c.hand);
            let b = CacheV { stats: blk::Stats { miss: c.stats.miss.wrapping_add(1), ..c.stats }, ..c }.count_rd();
            let p = b.install(lba, d.secs[lba as int], true);
            let i = blk::victim_of(c.slots, c.hand, 64).2;
            assert(p.slots[i].valid && p.slots[i].lba == lba && p.slots[i].referenced);
            assert(p.hand == (i + 1) % 64);
            law_fresh_slots_stay(p.slots, p.hand);
            let x = blk::victim_of(p.slots, p.hand, 64).2;
            assert(x != i);
            assert(r.slots[i].valid && r.slots[i].lba == lba);
            if d.has(lba + 1) {
                match blk::find(p.slots, (lba + 1) as u32, 0) {
                    Some(y) => {
                        lemma_find(p.slots, (lba + 1) as u32, 0);
                        assert(r.slots[y].valid && r.slots[y].lba == lba + 1);
                    },
                    None => {
                        assert(r.slots[x].valid && r.slots[x].lba == lba + 1);
                    },
                }
            }
        },
    }
}

/// A sector that is read again comes from the cache: the device is not asked,
/// and what comes is the same.
pub proof fn law_read_again(
    b: &mut Blk,
    c: &mut Blk,
    lba: u32,
    out: &mut [u8; SECTOR],
    again: &mut [u8; SECTOR],
    u: (),
    v: (),
)
    requires
        old(b).wf(),
        old(b).dev@.has(lba as int),
        !blk::behind(old(b).jnl, lba),
        call_ensures(blk::read, (b, lba, out), u),
        *old(c) == *final(b),
        call_ensures(blk::read, (c, lba, again), v),
    ensures
        final(out)@ == old(b).dev@.secs[lba as int],
        final(again)@ == final(out)@,
        final(c).stats.rd == final(b).stats.rd,
        final(c).stats.hits == final(b).stats.hits.wrapping_add(1),
        final(c).dev == old(b).dev,
{
    lemma_read_held(old(b).cache(), old(b).dev@, lba);
    lemma_found(final(b).cache(), lba);
    assert(final(c).cache().stats.rd == final(b).cache().stats.rd);
}

/// So does the sector behind one that had to be fetched.
pub proof fn law_next_is_fetched_ahead(
    b: &mut Blk,
    c: &mut Blk,
    lba: u32,
    out: &mut [u8; SECTOR],
    next: &mut [u8; SECTOR],
    u: (),
    v: (),
)
    requires
        old(b).wf(),
        old(b).dev@.has(lba as int),
        old(b).dev@.has(lba + 1),
        lba < u32::MAX,
        !blk::behind(old(b).jnl, (lba + 1) as u32),
        forall|i: int| 0 <= i < 64 ==> !((#[trigger] old(b).cache().slots[i]).valid && old(b).cache().slots[i].lba == lba),
        call_ensures(blk::read, (b, lba, out), u),
        *old(c) == *final(b),
        call_ensures(blk::read, (c, (lba + 1) as u32, next), v),
    ensures
        final(next)@ == old(b).dev@.secs[lba + 1],
        final(c).stats.rd == final(b).stats.rd,
{
    lemma_find(old(b).cache().slots, lba, 0);
    lemma_read_held(old(b).cache(), old(b).dev@, lba);
    lemma_found(final(b).cache(), (lba + 1) as u32);
    assert(final(c).cache().stats.rd == final(b).cache().stats.rd);
}

/// What is written reaches the device at once, and a read gives it back from
/// the cache; every other sector outside the journal is as it was.
pub proof fn law_write_through(
    b: &mut Blk,
    c: &mut Blk,
    lba: u32,
    data: &[u8; SECTOR],
    out: &mut [u8; SECTOR],
    u: (),
    v: (),
)
    requires
        old(b).wf(),
        old(b).dev@.has(lba as int),
        !blk::behind(final(b).jnl, lba),
        call_ensures(blk::write, (b, lba, data), u),
        *old(c) == *final(b),
        call_ensures(blk::read, (c, lba, out), v),
    ensures
        final(b).dev@.has(lba as int),
        final(b).dev@.secs[lba as int] == data@,
        final(out)@ == data@,
        final(c).stats.rd == final(b).stats.rd,
        final(b).stats.wr == old(b).stats.wr.wrapping_add(1),
{
    let a = old(b).cache();
    let p = final(b).cache();
    blk::lemma_recorded(old(b).jnl, old(b).dev@, lba, data@);
    match blk::find(a.slots, lba, 0) {
        Some(i) => {
            lemma_find(a.slots, lba, 0);
            assert(p.slots[i].valid && p.slots[i].lba == lba);
        },
        None => {
            law_fresh_slots_stay(a.slots, a.hand);
            let i = blk::victim_of(a.slots, a.hand, 64).2;
            assert(p.slots[i].valid && p.slots[i].lba == lba);
        },
    }
    lemma_found(p, lba);
    assert(final(c).cache().stats.rd == p.stats.rd);
}

} // verus!
