//! The block cache: sixty-four sectors, written through, replaced by second
//! chance, with one sector of read-ahead.
use crate::fs::dev;
use crate::fs::dev::{Dev, DevV, SECTOR};
use crate::fs::jnl;
use crate::fs::jnl::Jnl;
use vstd::prelude::*;

verus! {

pub const NSLOT: usize = 64;

#[derive(Clone, Copy)]
pub struct Slot {
    pub lba: u32,
    pub valid: bool,
    pub referenced: bool,
    pub data: [u8; SECTOR],
}

#[verifier::ext_equal]
pub struct SlotV {
    pub lba: u32,
    pub valid: bool,
    pub referenced: bool,
    pub data: Seq<u8>,
}

impl View for Slot {
    type V = SlotV;

    open spec fn view(&self) -> SlotV {
        SlotV { lba: self.lba, valid: self.valid, referenced: self.referenced, data: self.data@ }
    }
}

/// Counters: reads served and not served from the cache, reads and writes of
/// the device.
#[derive(Clone, Copy, PartialEq, Eq, Structural, Debug)]
pub struct Stats {
    pub hits: u64,
    pub miss: u64,
    pub rd: u64,
    pub wr: u64,
}

pub struct Blk {
    pub dev: Dev,
    pub jnl: Jnl,
    pub slots: [Slot; NSLOT],
    /// Where the search for a slot to replace goes on.
    pub hand: usize,
    pub stats: Stats,
}

#[verifier::ext_equal]
pub struct CacheV {
    pub slots: Seq<SlotV>,
    pub hand: int,
    pub stats: Stats,
}

/// The slot that holds a sector, from `i` on.
pub open spec fn find(c: Seq<SlotV>, lba: u32, i: int) -> Option<int>
    decreases c.len() - i,
{
    if i >= c.len() {
        None
    } else if c[i].valid && c[i].lba == lba {
        Some(i)
    } else {
        find(c, lba, i + 1)
    }
}

/// The slot to replace, in at most `k` steps: the first from the hand on that
/// is empty or was not used since the hand last passed; the hand clears the
/// marks it passes.
pub open spec fn victim_of(c: Seq<SlotV>, h: int, k: nat) -> (Seq<SlotV>, int, int)
    decreases k,
{
    let h2 = (h + 1) % (NSLOT as int);
    if k == 0 || !c[h].valid || !c[h].referenced {
        (c, h2, h)
    } else {
        victim_of(c.update(h, SlotV { referenced: false, ..c[h] }), h2, (k - 1) as nat)
    }
}

impl CacheV {
    pub open spec fn install(self, lba: u32, data: Seq<u8>, used: bool) -> CacheV {
        let (c, h, i) = victim_of(self.slots, self.hand, NSLOT as nat);
        CacheV {
            slots: c.update(i, SlotV { lba, valid: true, referenced: used, data }),
            hand: h,
            ..self
        }
    }

    pub open spec fn touch(self, i: int) -> CacheV {
        CacheV {
            slots: self.slots.update(i, SlotV { referenced: true, ..self.slots[i] }),
            ..self
        }
    }

    pub open spec fn count_rd(self) -> CacheV {
        CacheV { stats: Stats { rd: self.stats.rd.wrapping_add(1), ..self.stats }, ..self }
    }

    /// The sector fetched ahead, unless it is held or there is none.
    pub open spec fn ahead(self, d: DevV, lba: int) -> CacheV {
        if !d.has(lba) || find(self.slots, lba as u32, 0) is Some {
            self
        } else {
            self.count_rd().install(lba as u32, d.secs[lba], false)
        }
    }

    pub open spec fn after_read(self, d: DevV, lba: u32) -> CacheV {
        match find(self.slots, lba, 0) {
            Some(i) => {
                let c = self.touch(i);
                CacheV { stats: Stats { hits: c.stats.hits.wrapping_add(1), ..c.stats }, ..c }
            },
            None => {
                let c = CacheV {
                    stats: Stats { miss: self.stats.miss.wrapping_add(1), ..self.stats },
                    ..self
                }.count_rd();
                if d.has(lba as int) {
                    c.install(lba, d.secs[lba as int], true).ahead(d, lba + 1)
                } else {
                    c
                }
            },
        }
    }

    pub open spec fn after_write(self, lba: u32, data: Seq<u8>) -> CacheV {
        let c = CacheV { stats: Stats { wr: self.stats.wr.wrapping_add(1), ..self.stats }, ..self };
        match find(c.slots, lba, 0) {
            Some(i) => CacheV {
                slots: c.slots.update(i, SlotV { data, referenced: true, ..c.slots[i] }),
                ..c
            },
            None => c.install(lba, data, true),
        }
    }
}

/// The sector is written behind the cache's back: the journal's own, while it
/// is on.
pub open spec fn behind(j: Jnl, lba: u32) -> bool {
    j.on && j.inside(lba as int)
}

/// What the cache holds of the device is what the device holds, each sector
/// once.
pub open spec fn coherent(c: Seq<SlotV>, d: DevV, j: Jnl) -> bool {
    &&& forall|i: int|
        0 <= i < c.len() && (#[trigger] c[i]).valid && d.has(c[i].lba as int) && !behind(j, c[i].lba)
            ==> c[i].data == d.secs[c[i].lba as int]
    &&& forall|i: int, k: int|
        0 <= i < c.len() && 0 <= k < c.len() && i != k && (#[trigger] c[i]).valid && (#[trigger] c[k]).valid
            ==> c[i].lba != c[k].lba
}

impl Blk {
    pub open spec fn cache(&self) -> CacheV {
        CacheV {
            slots: Seq::new(NSLOT as nat, |i: int| self.slots@[i]@),
            hand: self.hand as int,
            stats: self.stats,
        }
    }

    pub open spec fn wf(&self) -> bool {
        &&& self.dev@.wf()
        &&& self.dev@.secs.len() <= u32::MAX
        &&& self.jnl.wf()
        &&& self.hand < NSLOT
        &&& coherent(self.cache().slots, self.dev@, self.jnl)
    }
}

/// The cache without anything in it.
pub fn new(dev: Dev) -> (b: Blk)
    requires
        dev@.wf(),
        dev@.secs.len() <= u32::MAX,
    ensures
        b.wf(),
        b.dev == dev,
        !b.jnl.on,
        forall|i: int| 0 <= i < NSLOT ==> !(#[trigger] b.cache().slots[i]).valid,
        b.cache().hand == 0,
        b.cache().stats == (Stats { hits: 0, miss: 0, rd: 0, wr: 0 }),
{
    let b = Blk {
        dev,
        jnl: jnl::off(),
        slots: [Slot { lba: 0, valid: false, referenced: false, data: [0; SECTOR] }; NSLOT],
        hand: 0,
        stats: Stats { hits: 0, miss: 0, rd: 0, wr: 0 },
    };
    proof {
        assert forall|i: int| 0 <= i < NSLOT implies !(#[trigger] b.cache().slots[i]).valid by {
            assert(b.cache().slots[i] == b.slots@[i]@);
        }
    }
    b
}

fn lookup(b: &Blk, lba: u32) -> (r: Option<usize>)
    ensures
        match r {
            Some(i) => i < NSLOT && find(b.cache().slots, lba, 0) == Some(i as int) && b.slots@[i as int].valid
                && b.slots@[i as int].lba == lba,
            None => find(b.cache().slots, lba, 0) is None,
        },
{
    let mut i: usize = 0;
    while i < NSLOT
        invariant
            i <= NSLOT,
            find(b.cache().slots, lba, 0) == find(b.cache().slots, lba, i as int),
        decreases NSLOT - i,
    {
        assert(b.cache().slots[i as int] == b.slots@[i as int]@);
        if b.slots[i].valid && b.slots[i].lba == lba {
            return Some(i);
        }
        i += 1;
    }
    None
}

pub proof fn lemma_find_none(c: Seq<SlotV>, lba: u32, i: int)
    requires
        find(c, lba, i) is None,
        0 <= i,
    ensures
        forall|k: int| i <= k < c.len() ==> !((#[trigger] c[k]).valid && c[k].lba == lba),
    decreases c.len() - i,
{
    if i < c.len() {
        lemma_find_none(c, lba, i + 1);
    }
}

/// Marks cleared on the way change nothing else.
proof fn lemma_victim(c: Seq<SlotV>, h: int, k: nat)
    requires
        c.len() == NSLOT,
        0 <= h < NSLOT,
    ensures
        ({
            let (d, h2, i) = victim_of(c, h, k);
            &&& d.len() == NSLOT
            &&& 0 <= h2 < NSLOT
            &&& 0 <= i < NSLOT
            &&& forall|x: int|
                0 <= x < NSLOT ==> (#[trigger] d[x]).lba == c[x].lba && d[x].valid == c[x].valid && d[x].data
                    == c[x].data
        }),
    decreases k,
{
    if !(k == 0 || !c[h].valid || !c[h].referenced) {
        lemma_victim(
            c.update(h, SlotV { referenced: false, ..c[h] }),
            (h + 1) % (NSLOT as int),
            (k - 1) as nat,
        );
    }
}

fn set_slot(b: &mut Blk, i: usize, s: Slot)
    requires
        i < NSLOT,
    ensures
        final(b).cache() == (CacheV {
            slots: old(b).cache().slots.update(i as int, s@),
            ..old(b).cache()
        }),
        final(b).dev == old(b).dev,
        final(b).jnl == old(b).jnl,
        final(b).hand == old(b).hand,
{
    b.slots[i] = s;
    assert(b.cache().slots =~= old(b).cache().slots.update(i as int, s@));
}

/// Chooses the slot to replace.
fn victim(b: &mut Blk) -> (i: usize)
    requires
        old(b).hand < NSLOT,
    ensures
        i < NSLOT,
        final(b).dev == old(b).dev,
        final(b).jnl == old(b).jnl,
        final(b).stats == old(b).stats,
        final(b).hand < NSLOT,
        (final(b).cache().slots, final(b).hand as int, i as int) == victim_of(
            old(b).cache().slots,
            old(b).hand as int,
            NSLOT as nat,
        ),
{
    let mut k: usize = NSLOT;
    let ghost c0 = b.cache().slots;
    let ghost h0 = b.hand as int;
    assert(b.cache().slots[b.hand as int] == b.slots@[b.hand as int]@);
    while k > 0 && b.slots[b.hand].valid && b.slots[b.hand].referenced
        invariant
            k <= NSLOT,
            b.hand < NSLOT,
            b.dev == old(b).dev,
            b.jnl == old(b).jnl,
            b.stats == old(b).stats,
            victim_of(c0, h0, NSLOT as nat) == victim_of(b.cache().slots, b.hand as int, k as nat),
        decreases k,
    {
        let h: usize = b.hand;
        assert(b.cache().slots[h as int] == b.slots@[h as int]@);
        let s = b.slots[h];
        set_slot(b, h, Slot { lba: s.lba, valid: s.valid, referenced: false, data: s.data });
        b.hand = if h + 1 < NSLOT {
            h + 1
        } else {
            0
        };
        k -= 1;
    }
    let i: usize = b.hand;
    assert(b.cache().slots[i as int] == b.slots@[i as int]@);
    b.hand = if i + 1 < NSLOT {
        i + 1
    } else {
        0
    };
    i
}

/// Puts a sector into the cache.
fn install(b: &mut Blk, lba: u32, data: &[u8; SECTOR], used: bool)
    requires
        old(b).wf(),
        find(old(b).cache().slots, lba, 0) is None,
        old(b).dev@.has(lba as int) ==> data@ == old(b).dev@.secs[lba as int],
    ensures
        final(b).wf(),
        final(b).dev == old(b).dev,
        final(b).jnl == old(b).jnl,
        final(b).cache() == old(b).cache().install(lba, data@, used),
{
    let ghost c0 = b.cache().slots;
    let i = victim(b);
    let ghost c1 = b.cache().slots;
    set_slot(b, i, Slot { lba, valid: true, referenced: used, data: *data });
    proof {
        lemma_find_none(c0, lba, 0);
        lemma_victim(c0, old(b).hand as int, NSLOT as nat);
        assert(coherent(c1, b.dev@, b.jnl)) by {
            assert forall|x: int|
                0 <= x < c1.len() && (#[trigger] c1[x]).valid && b.dev@.has(c1[x].lba as int) && !behind(
                    b.jnl,
                    c1[x].lba,
                ) implies c1[x].data == b.dev@.secs[c1[x].lba as int] by {
                assert(c0[x].valid);
            }
            assert forall|x: int, y: int|
                0 <= x < c1.len() && 0 <= y < c1.len() && x != y && (#[trigger] c1[x]).valid && (
                #[trigger] c1[y]).valid implies c1[x].lba != c1[y].lba by {
                assert(c0[x].valid && c0[y].valid);
            }
        }
        let c2 = b.cache().slots;
        assert forall|x: int, y: int|
            0 <= x < c2.len() && 0 <= y < c2.len() && x != y && (#[trigger] c2[x]).valid && (
            #[trigger] c2[y]).valid implies c2[x].lba != c2[y].lba by {
            if x == i {
                assert(c1[y].valid && c0[y].valid);
            } else if y == i {
                assert(c1[x].valid && c0[x].valid);
            } else {
                assert(c1[x].valid && c1[y].valid);
            }
        }
        assert forall|x: int|
            0 <= x < c2.len() && (#[trigger] c2[x]).valid && b.dev@.has(c2[x].lba as int) && !behind(
                b.jnl,
                c2[x].lba,
            ) implies c2[x].data == b.dev@.secs[c2[x].lba as int] by {
            if x != i {
                assert(c1[x].valid);
            }
        }
    }
}

fn readahead(b: &mut Blk, lba: u32)
    requires
        old(b).wf(),
    ensures
        final(b).wf(),
        final(b).dev == old(b).dev,
        final(b).jnl == old(b).jnl,
        final(b).cache() == old(b).cache().ahead(old(b).dev@, lba as int),
{
    if lba as u64 >= dev::capacity_sectors(&b.dev) {
        return;
    }
    if lookup(b, lba).is_some() {
        return;
    }
    let mut tmp: [u8; SECTOR] = [0; SECTOR];
    let ok = dev::read_block(&b.dev, lba, &mut tmp);
    b.stats.rd = b.stats.rd.wrapping_add(1);
    assert(b.cache() =~= old(b).cache().count_rd());
    if !ok {
        return;
    }
    install(b, lba, &tmp, false);
}

/// Reads a sector, from the cache if it holds it. Where the device has no such
/// sector and the cache neither, `out` stays as it was.
pub fn read(b: &mut Blk, lba: u32, out: &mut [u8; SECTOR])
    requires
        old(b).wf(),
    ensures
        final(b).wf(),
        final(b).dev == old(b).dev,
        final(b).jnl == old(b).jnl,
        final(b).cache() == old(b).cache().after_read(old(b).dev@, lba),
        final(out)@ == match find(old(b).cache().slots, lba, 0) {
            Some(i) => old(b).cache().slots[i].data,
            None => if old(b).dev@.has(lba as int) {
                old(b).dev@.secs[lba as int]
            } else {
                old(out)@
            },
        },
        old(b).dev@.has(lba as int) && !behind(old(b).jnl, lba) ==> final(out)@
            == old(b).dev@.secs[lba as int],
{
    if let Some(i) = lookup(b, lba) {
        assert(b.cache().slots[i as int] == b.slots@[i as int]@);
        let s = b.slots[i];
        *out = s.data;
        set_slot(b, i, Slot { lba: s.lba, valid: s.valid, referenced: true, data: s.data });
        b.stats.hits = b.stats.hits.wrapping_add(1);
        proof {
            let c0 = old(b).cache().slots;
            let c = b.cache().slots;
            assert(c =~= c0.update(i as int, SlotV { referenced: true, ..c0[i as int] }));
            lemma_same_held(c0, c, b.dev@, b.jnl);
        }
        return;
    }
    b.stats.miss = b.stats.miss.wrapping_add(1);
    b.stats.rd = b.stats.rd.wrapping_add(1);
    assert(b.cache().slots =~= old(b).cache().slots);
    let mut tmp: [u8; SECTOR] = [0; SECTOR];
    if !dev::read_block(&b.dev, lba, &mut tmp) {
        return;
    }
    *out = tmp;
    install(b, lba, &tmp, true);
    readahead(b, lba + 1);
}

/// A cache that differs in marks only.
proof fn lemma_same_held(c: Seq<SlotV>, e: Seq<SlotV>, d: DevV, j: Jnl)
    requires
        coherent(c, d, j),
        e.len() == c.len(),
        forall|x: int|
            0 <= x < c.len() ==> (#[trigger] e[x]).lba == c[x].lba && e[x].valid == c[x].valid && e[x].data
                == c[x].data,
    ensures
        coherent(e, d, j),
{
    assert forall|x: int|
        0 <= x < e.len() && (#[trigger] e[x]).valid && d.has(e[x].lba as int) && !behind(j, e[x].lba) implies e[x].data
        == d.secs[e[x].lba as int] by {
        assert(c[x].valid);
    }
    assert forall|x: int, y: int|
        0 <= x < e.len() && 0 <= y < e.len() && x != y && (#[trigger] e[x]).valid && (#[trigger] e[y]).valid implies e[x].lba
        != e[y].lba by {
        assert(c[x].valid && c[y].valid);
    }
}

/// Writes a sector: first to the journal, if it is on, then to the device,
/// then to the cache.
pub fn write(b: &mut Blk, lba: u32, data: &[u8; SECTOR])
    requires
        old(b).wf(),
    ensures
        final(b).wf(),
        ({
            let (j, d) = jnl::recorded(old(b).jnl, old(b).dev@, lba, data@);
            &&& final(b).jnl == j
            &&& final(b).dev@ == d.put(lba, data@)
        }),
        final(b).cache() == old(b).cache().after_write(lba, data@),
{
    let ghost c0 = b.cache().slots;
    let ghost d0 = b.dev@;
    let ghost j0 = b.jnl;
    jnl::record(&mut b.jnl, &mut b.dev, lba, data);
    proof {
        assert(b.cache().slots =~= c0);
        lemma_recorded(j0, d0, lba, data@);
        assert(coherent(c0, b.dev@, b.jnl)) by {
            assert forall|x: int|
                0 <= x < c0.len() && (#[trigger] c0[x]).valid && b.dev@.has(c0[x].lba as int) && !behind(
                    b.jnl,
                    c0[x].lba,
                ) implies c0[x].data == b.dev@.secs[c0[x].lba as int] by {
                assert(!behind(j0, c0[x].lba));
            }
        }
    }
    home_write(b, lba, data);
}

/// Recording changes sectors of the journal alone.
pub proof fn lemma_recorded(j: Jnl, d: DevV, lba: u32, data: Seq<u8>)
    requires
        j.wf(),
        d.wf(),
        data.len() == SECTOR,
    ensures
        ({
            let (k, e) = jnl::recorded(j, d, lba, data);
            &&& e.wf()
            &&& e.ready == d.ready
            &&& e.secs.len() == d.secs.len()
            &&& forall|l: u32| !behind(j, l) && d.has(l as int) ==> #[trigger] e.secs[l as int] == d.secs[l as int]
            &&& k.on == j.on
            &&& k.jlba == j.jlba
            &&& k.jb == j.jb
        }),
{
}

/// Writes a sector to the device and the cache.
fn home_write(b: &mut Blk, lba: u32, data: &[u8; SECTOR])
    requires
        old(b).wf(),
    ensures
        final(b).wf(),
        final(b).jnl == old(b).jnl,
        final(b).dev@ == old(b).dev@.put(lba, data@),
        final(b).cache() == old(b).cache().after_write(lba, data@),
{
    let ghost c0 = b.cache().slots;
    let ghost d0 = b.dev@;
    b.stats.wr = b.stats.wr.wrapping_add(1);
    assert(b.cache().slots =~= c0);
    match lookup(b, lba) {
        Some(i) => {
            let _ = dev::write_block(&mut b.dev, lba, data);
            assert(b.cache().slots =~= c0);
            let s = b.slots[i];
            assert(b.cache().slots[i as int] == b.slots@[i as int]@);
            set_slot(b, i, Slot { lba: s.lba, valid: s.valid, referenced: true, data: *data });
            proof {
                let c = b.cache().slots;
                assert(c =~= c0.update(
                    i as int,
                    SlotV { data: data@, referenced: true, ..c0[i as int] },
                ));
                assert forall|x: int|
                    0 <= x < c.len() && (#[trigger] c[x]).valid && b.dev@.has(c[x].lba as int) && !behind(
                        b.jnl,
                        c[x].lba,
                    ) implies c[x].data == b.dev@.secs[c[x].lba as int] by {
                    if x != i {
                        assert(c0[x].valid && c0[i as int].valid);
                    }
                }
                assert forall|x: int, y: int|
                    0 <= x < c.len() && 0 <= y < c.len() && x != y && (#[trigger] c[x]).valid && (
                    #[trigger] c[y]).valid implies c[x].lba != c[y].lba by {
                    assert(c0[x].valid && c0[y].valid);
                }
            }
        },
        None => {
            let _ = dev::write_block(&mut b.dev, lba, data);
            proof {
                assert(b.cache().slots =~= c0);
                lemma_find_none(c0, lba, 0);
                assert(coherent(c0, b.dev@, b.jnl)) by {
                    assert forall|x: int|
                        0 <= x < c0.len() && (#[trigger] c0[x]).valid && b.dev@.has(
                            c0[x].lba as int,
                        ) && !behind(b.jnl, c0[x].lba) implies c0[x].data == b.dev@.secs[c0[x].lba as int] by {
                        assert(c0[x].lba != lba);
                    }
                }
            }
            install(b, lba, data, true);
        },
    }
}

/// What was written is what is read next, from the cache or not.
pub proof fn law_write_then_read(d: DevV, lba: u32, data: Seq<u8>)
    requires
        d.has(lba as int),
    ensures
        d.put(lba, data).has(lba as int),
        d.put(lba, data).secs[lba as int] == data,
        forall|l: int| l != lba && d.has(l) ==> #[trigger] d.put(lba, data).secs[l] == d.secs[l],
{
}

// ---- accesses ----

/// A sector read or written through the cache.
pub enum Access {
    Read { lba: u32 },
    Write { lba: u32, data: Seq<u8> },
}

/// Cache and device after some accesses, with the journal off. Nothing is
/// written where the device has no sector.
pub open spec fn served(c: CacheV, d: DevV, t: Seq<Access>) -> (CacheV, DevV)
    decreases t.len(),
{
    if t.len() == 0 {
        (c, d)
    } else {
        let (c1, d1) = served(c, d, t.drop_last());
        match t.last() {
            Access::Read { lba } => (c1.after_read(d1, lba), d1),
            Access::Write { lba, data } => if d1.has(lba as int) {
                (c1.after_write(lba, data), d1.put(lba, data))
            } else {
                (c1, d1)
            },
        }
    }
}

proof fn lemma_served_on(c: CacheV, d: DevV, t: Seq<Access>, u: Seq<Access>)
    ensures
        served(c, d, t + u) == served(served(c, d, t).0, served(c, d, t).1, u),
    decreases u.len(),
{
    if u.len() == 0 {
        assert(t + u =~= t);
    } else {
        lemma_served_on(c, d, t, u.drop_last());
        assert((t + u).drop_last() =~= t + u.drop_last());
        assert((t + u).last() == u.last());
    }
}

/// From `a` to `b` sectors were read and written through the cache and nothing
/// else was done: slots, hand and counters are what that makes of them.
#[verifier::opaque]
pub open spec fn accessed(a: Blk, b: Blk) -> bool {
    exists|t: Seq<Access>| #[trigger] served(a.cache(), a.dev@, t) == (b.cache(), b.dev@)
}

pub broadcast proof fn lemma_accessed_none(a: Blk)
    ensures
        #[trigger] accessed(a, a),
{
    reveal(accessed);
    assert(served(a.cache(), a.dev@, Seq::empty()) == (a.cache(), a.dev@));
}

pub broadcast proof fn lemma_accessed_on(a: Blk, b: Blk, c: Blk)
    requires
        #[trigger] accessed(a, b),
        #[trigger] accessed(b, c),
    ensures
        accessed(a, c),
{
    reveal(accessed);
    let t = choose|t: Seq<Access>| #[trigger] served(a.cache(), a.dev@, t) == (b.cache(), b.dev@);
    let u = choose|u: Seq<Access>| #[trigger] served(b.cache(), b.dev@, u) == (c.cache(), c.dev@);
    lemma_served_on(a.cache(), a.dev@, t, u);
    assert(served(a.cache(), a.dev@, t + u) == (c.cache(), c.dev@));
}

/// The cache holds nothing but sectors that the device has.
pub open spec fn held(c: Seq<SlotV>, d: DevV) -> bool {
    c.len() == NSLOT && forall|i: int| 0 <= i < NSLOT && (#[trigger] c[i]).valid ==> d.has(c[i].lba as int)
}

proof fn lemma_install_held(c: CacheV, d: DevV, lba: u32, data: Seq<u8>, used: bool)
    requires
        held(c.slots, d),
        0 <= c.hand < NSLOT,
        d.has(lba as int),
    ensures
        held(c.install(lba, data, used).slots, d),
        0 <= c.install(lba, data, used).hand < NSLOT,
{
    lemma_victim(c.slots, c.hand, NSLOT as nat);
}

proof fn lemma_find_some(c: Seq<SlotV>, lba: u32, i: int)
    requires
        0 <= i,
        find(c, lba, i) is Some,
    ensures
        i <= find(c, lba, i)->0 < c.len(),
        c[find(c, lba, i)->0].valid,
        c[find(c, lba, i)->0].lba == lba,
    decreases c.len() - i,
{
    if i < c.len() && !(c[i].valid && c[i].lba == lba) {
        lemma_find_some(c, lba, i + 1);
    }
}

/// Reading brings nothing else into the cache, and a sector that the device
/// does not have is not found in it.
pub proof fn lemma_read_held(c: CacheV, d: DevV, lba: u32)
    requires
        held(c.slots, d),
        0 <= c.hand < NSLOT,
        d.secs.len() <= u32::MAX,
    ensures
        held(c.after_read(d, lba).slots, d),
        !d.has(lba as int) ==> find(c.slots, lba, 0) is None,
{
    if find(c.slots, lba, 0) is Some {
        lemma_find_some(c.slots, lba, 0);
    } else if d.has(lba as int) {
        let m = CacheV { stats: Stats { miss: c.stats.miss.wrapping_add(1), ..c.stats }, ..c }.count_rd();
        lemma_install_held(m, d, lba, d.secs[lba as int], true);
        let n = m.install(lba, d.secs[lba as int], true);
        if d.has(lba + 1) && find(n.slots, (lba + 1) as u32, 0) is None {
            lemma_install_held(n.count_rd(), d, (lba + 1) as u32, d.secs[lba + 1], false);
        }
    }
}

/// Nor does writing a sector that the device has.
pub proof fn lemma_write_held(c: CacheV, d: DevV, lba: u32, data: Seq<u8>)
    requires
        held(c.slots, d),
        0 <= c.hand < NSLOT,
        d.has(lba as int),
    ensures
        held(c.after_write(lba, data).slots, d.put(lba, data)),
{
    let m = CacheV { stats: Stats { wr: c.stats.wr.wrapping_add(1), ..c.stats }, ..c };
    if find(m.slots, lba, 0) is Some {
        lemma_find_some(m.slots, lba, 0);
    } else {
        lemma_install_held(m, d, lba, data, true);
    }
}

pub proof fn lemma_accessed_read(a: Blk, b: Blk, lba: u32)
    requires
        b.dev@ == a.dev@,
        b.cache() == a.cache().after_read(a.dev@, lba),
    ensures
        accessed(a, b),
{
    reveal(accessed);
    reveal_with_fuel(served, 2);
    let t = seq![Access::Read { lba }];
    assert(t.drop_last() =~= Seq::empty());
    assert(served(a.cache(), a.dev@, t) == (b.cache(), b.dev@));
}

pub proof fn lemma_accessed_write(a: Blk, b: Blk, lba: u32, data: Seq<u8>)
    requires
        a.dev@.has(lba as int),
        b.dev@ == a.dev@.put(lba, data),
        b.cache() == a.cache().after_write(lba, data),
    ensures
        accessed(a, b),
{
    reveal(accessed);
    reveal_with_fuel(served, 2);
    let t = seq![Access::Write { lba, data }];
    assert(t.drop_last() =~= Seq::empty());
    assert(served(a.cache(), a.dev@, t) == (b.cache(), b.dev@));
}

/// Counters after one read: it is a hit or a miss, a miss asks the device once
/// or, with the sector ahead, twice, and nothing is written.
proof fn lemma_read_counts(c: CacheV, d: DevV, lba: u32)
    ensures
        ({
            let (a, b) = (c.stats, c.after_read(d, lba).stats);
            &&& b.wr == a.wr
            &&& b.hits == a.hits.wrapping_add(1) && b.miss == a.miss && b.rd == a.rd || b.hits == a.hits && b.miss
                == a.miss.wrapping_add(1) && (b.rd == a.rd.wrapping_add(1) || b.rd == a.rd.wrapping_add(
                1,
            ).wrapping_add(1))
        }),
{
}

/// How often something was counted from `a` to `b`, on a counter that begins
/// again behind its last value.
pub open spec fn counted(a: u64, b: u64) -> int {
    if a <= b {
        b - a
    } else {
        b - a + 0x1_0000_0000_0000_0000
    }
}

proof fn lemma_counted_writes(c: CacheV, d: DevV, t: Seq<Access>)
    ensures
        ({
            let (c1, d1) = served(c, d, t);
            let n = d1.log.len() - d.log.len();
            &&& n >= 0
            &&& n < 0x1_0000_0000_0000_0000 ==> counted(c.stats.wr, c1.stats.wr) == n
            &&& d1.ready == d.ready
            &&& d1.secs.len() == d.secs.len()
        }),
    decreases t.len(),
{
    if t.len() > 0 {
        lemma_counted_writes(c, d, t.drop_last());
        let (c1, d1) = served(c, d, t.drop_last());
        if let Access::Read { lba } = t.last() {
            lemma_read_counts(c1, d1, lba);
        }
    }
}

/// The counter of writes tells how many writes reached the device.
pub proof fn law_writes_are_counted(a: Blk, b: Blk)
    requires
        accessed(a, b),
        b.dev@.log.len() - a.dev@.log.len() < 0x1_0000_0000_0000_0000,
    ensures
        counted(a.stats.wr, b.stats.wr) == b.dev@.log.len() - a.dev@.log.len(),
{
    reveal(accessed);
    let t = choose|t: Seq<Access>| #[trigger] served(a.cache(), a.dev@, t) == (b.cache(), b.dev@);
    lemma_counted_writes(a.cache(), a.dev@, t);
}

} // verus!
