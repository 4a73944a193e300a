//! What holds of a disk as a whole: no block belongs to two files, and what is
//! written is what is read.
use crate::fs::dev;
use crate::fs::dev::{DevV, SECTOR};
use crate::fs::disk;
use crate::fs::disk::{Geo, InoV, INO_SIZE, KIND_FILE, MAX_BLOCKS};
use vstd::prelude::*;

verus! {

// ---- bits ----

/// Setting or clearing a bit changes that bit alone.
pub proof fn law_bits(x: u8, k: int, m: int)
    requires
        0 <= k < 8,
        0 <= m < 8,
    ensures
        disk::bit(disk::bit_set(x, k), m) == (m == k || disk::bit(x, m)),
        disk::bit(disk::bit_clear(x, k), m) == (m != k && disk::bit(x, m)),
{
    let p = disk::pow2(k) as u8;
    let q = disk::pow2(m) as u8;
    lemma_bit_value(x, k);
    if disk::bit(x, k) {
        assert((((x - p) as u8) / q) % 2 == if p == q {
            0u8
        } else {
            (x / q) % 2
        }) by (bit_vector)
            requires
                (x / p) % 2 == 1,
                p == 1 || p == 2 || p == 4 || p == 8 || p == 16 || p == 32 || p == 64 || p == 128,
                q == 1 || q == 2 || q == 4 || q == 8 || q == 16 || q == 32 || q == 64 || q == 128,
        ;
    } else {
        assert((((x + p) as u8) / q) % 2 == if p == q {
            1u8
        } else {
            (x / q) % 2
        }) by (bit_vector)
            requires
                (x / p) % 2 == 0,
                p == 1 || p == 2 || p == 4 || p == 8 || p == 16 || p == 32 || p == 64 || p == 128,
                q == 1 || q == 2 || q == 4 || q == 8 || q == 16 || q == 32 || q == 64 || q == 128,
        ;
    }
}

proof fn lemma_bit_value(x: u8, k: int)
    requires
        0 <= k < 8,
    ensures
        !disk::bit(x, k) ==> x + disk::pow2(k) <= 255,
        disk::bit(x, k) ==> x >= disk::pow2(k),
{
}

// ---- who owns what ----

pub open spec fn is_map(g: Geo, l: int) -> bool {
    g.bmap_lba <= l < g.bmap_lba + (g.nblocks + 4095) / 4096
}

pub open spec fn is_itab(g: Geo, l: int) -> bool {
    g.ino_lba <= l < g.ino_lba + (g.ninodes + 7) / 8
}

/// The sector belongs to the bitmap or the inode table.
pub open spec fn is_meta(g: Geo, l: int) -> bool {
    is_map(g, l) || is_itab(g, l)
}

/// Block `k` of inode `i`, or, for 136, the block that lists its blocks; 0 for
/// none.
pub open spec fn own(d: DevV, g: Geo, i: u32, k: int) -> u32 {
    match disk::ino_at(d, g, i) {
        Some(r) => own_of(d, r, k),
        None => 0,
    }
}

pub open spec fn own_of(d: DevV, r: InoV, k: int) -> u32 {
    if 0 <= k < 8 {
        r.direct[k]
    } else if 8 <= k < 136 && r.indirect != 0 {
        dev::word(d.at(r.indirect as int), (k - 8) * 4)
    } else if k == 136 {
        r.indirect
    } else {
        0
    }
}

/// The block can belong to a file: it exists, is taken, and is neither bitmap
/// nor inode table.
pub open spec fn data_ok(d: DevV, g: Geo, b: u32) -> bool {
    b < g.nblocks && disk::taken(d, g, b) && !is_meta(g, b as int)
}

/// A sound disk: bitmap, inode table and blocks are there, what is free is no
/// part of bitmap or table, and every block of a file is taken and belongs to
/// it alone.
pub open spec fn sound(d: DevV, g: Geo) -> bool {
    &&& g.wf()
    &&& d.wf()
    &&& d.ready
    &&& forall|l: int| #[trigger] is_meta(g, l) ==> d.has(l)
    &&& forall|l: int| !(#[trigger] is_map(g, l) && is_itab(g, l))
    &&& g.nblocks <= d.secs.len()
    &&& forall|b: u32|
        b < g.nblocks && !(#[trigger] disk::taken(d, g, b)) ==> b != 0 && !is_meta(g, b as int)
    &&& forall|i: u32, k: int| (#[trigger] own(d, g, i, k)) != 0 ==> data_ok(d, g, own(d, g, i, k))
    &&& forall|i: u32, k: int, j: u32, m: int|
        (i != j || k != m) && (#[trigger] own(d, g, i, k)) != 0 ==> own(d, g, i, k) != #[trigger] own(
            d,
            g,
            j,
            m,
        )
}

/// Inodes and their blocks are the same.
pub open spec fn same_tree(d: DevV, e: DevV, g: Geo) -> bool {
    &&& forall|i: u32| #[trigger] disk::ino_at(e, g, i) == disk::ino_at(d, g, i)
    &&& forall|i: u32, k: int| #[trigger] own(e, g, i, k) == own(d, g, i, k)
}

/// Inode table and lists untouched: the tree is the same.
proof fn lemma_same_tree(d: DevV, e: DevV, g: Geo)
    requires
        g.wf(),
        forall|l: int| is_itab(g, l) ==> #[trigger] e.at(l) == d.at(l),
        forall|i: u32|
            (#[trigger] disk::ino_at(d, g, i)) matches Some(r) && r.indirect != 0 ==> e.at(
                (disk::ino_at(d, g, i)->0).indirect as int,
            ) == d.at((disk::ino_at(d, g, i)->0).indirect as int),
    ensures
        same_tree(d, e, g),
{
    assert forall|i: u32| #[trigger] disk::ino_at(e, g, i) == disk::ino_at(d, g, i) by {
        if 1 <= i <= g.ninodes {
            assert(is_itab(g, disk::ino_sector(g, i)));
        }
    }
    assert forall|i: u32, k: int| #[trigger] own(e, g, i, k) == own(d, g, i, k) by {
        assert(disk::ino_at(e, g, i) == disk::ino_at(d, g, i));
    }
}

proof fn lemma_word(b: Seq<u8>, o: int, v: u32)
    requires
        0 <= o,
        o + 4 <= b.len(),
        b[o] == dev::byte(v, 0),
        b[o + 1] == dev::byte(v, 1),
        b[o + 2] == dev::byte(v, 2),
        b[o + 3] == dev::byte(v, 3),
    ensures
        dev::word(b, o) == v,
{
}

/// An inode stored is the inode read, and its neighbours stay.
proof fn lemma_ino_stored(b: Seq<u8>, off: int, q: InoV, o2: int)
    requires
        b.len() == SECTOR,
        0 <= off,
        off + INO_SIZE <= SECTOR,
        q.direct.len() == 8,
        0 <= o2,
        o2 + INO_SIZE <= SECTOR,
    ensures
        disk::ino_in(disk::ino_stored(b, off, q), off) == q,
        o2 + INO_SIZE <= off || off + INO_SIZE <= o2 ==> disk::ino_in(disk::ino_stored(b, off, q), o2)
            == disk::ino_in(b, o2),
{
    let c = disk::ino_stored(b, off, q);
    lemma_word(c, off + 4, q.size);
    lemma_word(c, off + 40, q.indirect);
    assert forall|k: int| 0 <= k < 8 implies dev::word(c, off + 8 + k * 4) == q.direct[k] by {
        let o = off + 8 + k * 4;
        assert((o - off - 8) / 4 == k && (o + 1 - off - 8) / 4 == k && (o + 2 - off - 8) / 4 == k && (o + 3
            - off - 8) / 4 == k);
        assert((o - off - 8) % 4 == 0 && (o + 1 - off - 8) % 4 == 1 && (o + 2 - off - 8) % 4 == 2 && (o + 3
            - off - 8) % 4 == 3);
        lemma_word(c, o, q.direct[k]);
    }
    assert(disk::ino_in(c, off) =~= q);
    if o2 + INO_SIZE <= off || off + INO_SIZE <= o2 {
        assert forall|x: int| o2 <= x < o2 + INO_SIZE implies c[x] == b[x] by {}
        assert(disk::ino_in(c, o2).direct =~= disk::ino_in(b, o2).direct);
    }
}

/// Storing an inode changes that inode alone.
pub proof fn lemma_ino_put(d: DevV, g: Geo, i: u32, q: InoV)
    requires
        g.wf(),
        d.wf(),
        1 <= i <= g.ninodes,
        d.has(disk::ino_sector(g, i)),
        q.direct.len() == 8,
        disk::is_kind(q.kind),
    ensures
        ({
            let e = disk::ino_put(d, g, i, q);
            &&& e.wf()
            &&& e.ready == d.ready
            &&& e.secs.len() == d.secs.len()
            &&& disk::ino_at(e, g, i) == Some(q)
            &&& forall|j: u32| j != i ==> #[trigger] disk::ino_at(e, g, j) == disk::ino_at(d, g, j)
            &&& forall|l: int| l != disk::ino_sector(g, i) ==> #[trigger] e.at(l) == d.at(l)
        }),
{
    let e = disk::ino_put(d, g, i, q);
    let s = disk::ino_sector(g, i);
    let b = d.at(s);
    lemma_ino_stored(b, disk::ino_off(i), q, 0);
    assert(e.at(s) == disk::ino_stored(b, disk::ino_off(i), q));
    assert forall|j: u32| j != i implies #[trigger] disk::ino_at(e, g, j) == disk::ino_at(d, g, j) by {
        if 1 <= j <= g.ninodes && disk::ino_sector(g, j) == s {
            assert((j - 1) / 8 == (i - 1) / 8);
            lemma_ino_stored(b, disk::ino_off(i), q, disk::ino_off(j));
        }
    }
}

/// A bit set marks one block.
proof fn lemma_marked(d: DevV, g: Geo, b: u32, x: u32)
    requires
        sound(d, g),
        b < g.nblocks,
        x < g.nblocks,
    ensures
        disk::taken(disk::marked(d, g, b), g, x) == (x == b || disk::taken(d, g, x)),
        disk::marked(d, g, b).wf(),
        disk::marked(d, g, b).ready,
        disk::marked(d, g, b).secs.len() == d.secs.len(),
        forall|l: int| !is_map(g, l) ==> #[trigger] disk::marked(d, g, b).at(l) == d.at(l),
{
    let s = disk::map_sector(g, b);
    assert(is_meta(g, s) && is_map(g, s));
    assert(is_map(g, disk::map_sector(g, x)));
    assert(is_meta(g, disk::map_sector(g, x)));
    let y = d.at(s);
    law_bits(y[disk::map_off(b)], (b % 8) as int, (x % 8) as int);
    let e = disk::marked(d, g, b);
    assert(e.at(s) == y.update(disk::map_off(b), disk::bit_set(y[disk::map_off(b)], (b % 8) as int)));
    if disk::map_sector(g, x) == s && disk::map_off(x) == disk::map_off(b) {
        assert(x / 8 == b / 8);
    }
}

/// The first free block is free.
proof fn lemma_first_free(d: DevV, g: Geo, b: u32)
    ensures
        disk::first_free(d, g, b) matches Some(x) ==> x < g.nblocks && !disk::taken(d, g, x),
    decreases g.nblocks - b,
{
    if b < g.nblocks && disk::taken(d, g, b) {
        lemma_first_free(d, g, (b + 1) as u32);
    }
}

/// A block grabbed was nobody's; nothing else changes but its bit.
pub proof fn lemma_grabbed(d: DevV, g: Geo)
    requires
        sound(d, g),
    ensures
        ({
            let (e, r) = disk::grabbed(d, g);
            &&& sound(e, g)
            &&& same_tree(d, e, g)
            &&& e.secs.len() == d.secs.len()
            &&& r is None ==> e == d
            &&& r matches Some(b) ==> {
                &&& b != 0
                &&& data_ok(e, g, b)
                &&& e.at(b as int) == dev::zeros()
                &&& forall|i: u32, k: int| #[trigger] own(d, g, i, k) != b
                &&& forall|l: int| l != b && !is_map(g, l) ==> #[trigger] e.at(l) == d.at(l)
            }
        }),
{
    let (e, r) = disk::grabbed(d, g);
    lemma_first_free(d, g, 0);
    if let Some(b) = r {
        let m = disk::marked(d, g, b);
        lemma_marked(d, g, b, b);
        assert(!disk::taken(d, g, b));
        assert(b != 0 && !is_meta(g, b as int));
        assert forall|l: int| l != b && !is_map(g, l) implies #[trigger] e.at(l) == d.at(l) by {
            assert(m.at(l) == d.at(l));
        }
        assert(e.at(b as int) == dev::zeros());
        assert forall|i: u32, k: int| #[trigger] own(d, g, i, k) != b by {
            assert(own(d, g, i, k) != 0 ==> data_ok(d, g, own(d, g, i, k)));
        }
        assert forall|i: u32|
            (#[trigger] disk::ino_at(d, g, i)) matches Some(r) && r.indirect != 0 implies e.at(
            (disk::ino_at(d, g, i)->0).indirect as int,
        ) == d.at((disk::ino_at(d, g, i)->0).indirect as int) by {
            assert(own(d, g, i, 136) == (disk::ino_at(d, g, i)->0).indirect);
            assert(data_ok(d, g, own(d, g, i, 136)));
        }
        assert forall|l: int| is_itab(g, l) implies #[trigger] e.at(l) == d.at(l) by {
            assert(is_meta(g, l));
            assert(!is_map(g, l));
        }
        lemma_same_tree(d, e, g);
        assert forall|x: u32| x < g.nblocks implies #[trigger] disk::taken(e, g, x) == (x == b
            || disk::taken(d, g, x)) by {
            lemma_marked(d, g, b, x);
            assert(is_meta(g, disk::map_sector(g, x)));
            assert(e.at(disk::map_sector(g, x)) == m.at(disk::map_sector(g, x)));
        }
        assert(data_ok(e, g, b)) by {
            assert(disk::taken(e, g, b));
        }
        assert(sound(e, g)) by {
            assert forall|l: int| #[trigger] is_meta(g, l) implies e.has(l) by {}
            assert forall|x: u32| x < g.nblocks && !(#[trigger] disk::taken(e, g, x)) implies x != 0
                && !is_meta(g, x as int) by {
                assert(disk::taken(e, g, x) == (x == b || disk::taken(d, g, x)));
            }
            assert forall|i: u32, k: int| (#[trigger] own(e, g, i, k)) != 0 implies data_ok(
                e,
                g,
                own(e, g, i, k),
            ) by {
                assert(own(d, g, i, k) == own(e, g, i, k));
                assert(data_ok(d, g, own(d, g, i, k)));
                assert(disk::taken(e, g, own(e, g, i, k)));
            }
            assert forall|i: u32, k: int, j: u32, n: int|
                (i != j || k != n) && (#[trigger] own(e, g, i, k)) != 0 implies own(e, g, i, k)
                != #[trigger] own(e, g, j, n) by {
                assert(own(d, g, i, k) == own(e, g, i, k));
                assert(own(d, g, j, n) == own(e, g, j, n));
            }
        }
    }
}

/// From `d` to `e` nothing changed for inodes other than `i`: their records,
/// their blocks, and what these hold.
pub open spec fn apart_from(d: DevV, e: DevV, g: Geo, i: u32) -> bool {
    &&& sound(e, g)
    &&& e.secs.len() == d.secs.len()
    &&& forall|j: u32| j != i ==> #[trigger] disk::ino_at(e, g, j) == disk::ino_at(d, g, j)
    &&& forall|j: u32, k: int| j != i ==> #[trigger] own(e, g, j, k) == own(d, g, j, k)
    &&& forall|j: u32, k: int|
        j != i && own(d, g, j, k) != 0 ==> e.at(#[trigger] own(d, g, j, k) as int) == d.at(
            own(d, g, j, k) as int,
        )
}

pub proof fn lemma_apart_trans(a: DevV, b: DevV, c: DevV, g: Geo, i: u32)
    requires
        apart_from(a, b, g, i),
        apart_from(b, c, g, i),
    ensures
        apart_from(a, c, g, i),
{
    assert forall|j: u32| j != i implies #[trigger] disk::ino_at(c, g, j) == disk::ino_at(a, g, j) by {
        assert(disk::ino_at(b, g, j) == disk::ino_at(a, g, j));
    }
    assert forall|j: u32, k: int| j != i implies #[trigger] own(c, g, j, k) == own(a, g, j, k) by {
        assert(own(b, g, j, k) == own(a, g, j, k));
    }
    assert forall|j: u32, k: int| j != i && own(a, g, j, k) != 0 implies c.at(
        #[trigger] own(a, g, j, k) as int,
    ) == a.at(own(a, g, j, k) as int) by {
        assert(own(b, g, j, k) == own(a, g, j, k));
        assert(c.at(own(b, g, j, k) as int) == b.at(own(b, g, j, k) as int));
    }
}

/// Writing a data block of inode `i` changes nothing else.
pub proof fn lemma_data_put(d: DevV, g: Geo, i: u32, k: int, v: Seq<u8>)
    requires
        sound(d, g),
        0 <= k < 136,
        own(d, g, i, k) != 0,
        v.len() == SECTOR,
    ensures
        ({
            let e = d.put(own(d, g, i, k), v);
            &&& apart_from(d, e, g, i)
            &&& same_tree(d, e, g)
            &&& e.at(own(d, g, i, k) as int) == v
            &&& forall|l: int| l != own(d, g, i, k) ==> #[trigger] e.at(l) == d.at(l)
        }),
{
    let b = own(d, g, i, k);
    let e = d.put(b, v);
    assert(data_ok(d, g, b));
    assert(disk::taken(d, g, b));
    assert(d.has(b as int));
    assert forall|l: int| is_itab(g, l) implies #[trigger] e.at(l) == d.at(l) by {
        assert(is_meta(g, l));
    }
    assert forall|j: u32|
        (#[trigger] disk::ino_at(d, g, j)) matches Some(r) && r.indirect != 0 implies e.at(
        (disk::ino_at(d, g, j)->0).indirect as int,
    ) == d.at((disk::ino_at(d, g, j)->0).indirect as int) by {
        assert(own(d, g, j, 136) == (disk::ino_at(d, g, j)->0).indirect);
        assert(own(d, g, i, k) != own(d, g, j, 136));
    }
    lemma_same_tree(d, e, g);
    assert forall|x: u32| x < g.nblocks implies #[trigger] disk::taken(e, g, x) == disk::taken(d, g, x) by {
        assert(is_meta(g, disk::map_sector(g, x)));
    }
    lemma_sound_same(d, e, g);
    assert forall|j: u32, m: int| j != i && own(d, g, j, m) != 0 implies e.at(
        #[trigger] own(d, g, j, m) as int,
    ) == d.at(own(d, g, j, m) as int) by {
        assert(own(d, g, i, k) != own(d, g, j, m));
    }
}

/// Same owners, same bitmap: as sound as before.
pub proof fn lemma_sound_same(d: DevV, e: DevV, g: Geo)
    requires
        sound(d, g),
        forall|i: u32, k: int| #[trigger] own(e, g, i, k) == own(d, g, i, k),
        e.wf(),
        e.ready,
        e.secs.len() == d.secs.len(),
        forall|x: u32| x < g.nblocks ==> #[trigger] disk::taken(e, g, x) == disk::taken(d, g, x),
    ensures
        sound(e, g),
{
    assert forall|l: int| #[trigger] is_meta(g, l) implies e.has(l) by {}
    assert forall|x: u32| x < g.nblocks && !(#[trigger] disk::taken(e, g, x)) implies x != 0 && !is_meta(
        g,
        x as int,
    ) by {
        assert(disk::taken(e, g, x) == disk::taken(d, g, x));
    }
    assert forall|i: u32, k: int| (#[trigger] own(e, g, i, k)) != 0 implies data_ok(e, g, own(e, g, i, k)) by {
        assert(own(d, g, i, k) == own(e, g, i, k));
        assert(data_ok(d, g, own(d, g, i, k)));
        assert(disk::taken(e, g, own(e, g, i, k)));
    }
    assert forall|i: u32, k: int, j: u32, n: int|
        (i != j || k != n) && (#[trigger] own(e, g, i, k)) != 0 implies own(e, g, i, k) != #[trigger] own(
        e,
        g,
        j,
        n,
    ) by {
        assert(own(d, g, i, k) == own(e, g, i, k));
        assert(own(d, g, j, n) == own(e, g, j, n));
    }
}

/// Inode `i` gains block `x` in place `kk`; everything else is as before.
proof fn lemma_gained(d: DevV, e: DevV, g: Geo, i: u32, kk: int, x: u32)
    requires
        sound(d, g),
        e.wf(),
        e.ready,
        e.secs.len() == d.secs.len(),
        forall|b: u32| b < g.nblocks ==> #[trigger] disk::taken(e, g, b) == disk::taken(d, g, b),
        x != 0,
        data_ok(d, g, x),
        forall|j: u32, k: int| #[trigger] own(d, g, j, k) != x,
        forall|j: u32, k: int| #[trigger]
            own(e, g, j, k) == if j == i && k == kk {
                x
            } else {
                own(d, g, j, k)
            },
    ensures
        sound(e, g),
{
    assert forall|l: int| #[trigger] is_meta(g, l) implies e.has(l) by {}
    assert forall|b: u32| b < g.nblocks && !(#[trigger] disk::taken(e, g, b)) implies b != 0 && !is_meta(
        g,
        b as int,
    ) by {
        assert(disk::taken(e, g, b) == disk::taken(d, g, b));
    }
    assert forall|j: u32, k: int| (#[trigger] own(e, g, j, k)) != 0 implies data_ok(e, g, own(e, g, j, k)) by {
        if !(j == i && k == kk) {
            assert(data_ok(d, g, own(d, g, j, k)));
        }
        assert(disk::taken(e, g, own(e, g, j, k)) == disk::taken(d, g, own(e, g, j, k)));
    }
    assert forall|j: u32, k: int, m: u32, n: int|
        (j != m || k != n) && (#[trigger] own(e, g, j, k)) != 0 implies own(e, g, j, k) != #[trigger] own(
        e,
        g,
        m,
        n,
    ) by {
        assert(own(d, g, j, k) != x);
        assert(own(d, g, m, n) != x);
    }
}

/// What holds after a block of inode `i` is looked for and made if need be.
pub open spec fn grows(d: DevV, g: Geo, i: u32, idx: u32, e: DevV, q: InoV, b: Option<u32>) -> bool {
    let r = disk::ino_at(d, g, i)->0;
    &&& apart_from(d, e, g, i)
    &&& disk::ino_at(e, g, i) == Some(q)
    &&& q.kind == r.kind
    &&& q.size == r.size
    &&& forall|k: int| 0 <= k < 136 && k != idx ==> #[trigger] own(e, g, i, k) == own(d, g, i, k)
    &&& idx < 136 && own(d, g, i, idx as int) != 0 ==> own(e, g, i, idx as int) == own(
        d,
        g,
        i,
        idx as int,
    )
    &&& forall|k: int|
        0 <= k < 136 && own(d, g, i, k) != 0 ==> e.at(#[trigger] own(d, g, i, k) as int) == d.at(
            own(d, g, i, k) as int,
        )
    &&& match b {
        Some(x) => {
            &&& idx < 136
            &&& x != 0
            &&& own(e, g, i, idx as int) == x
            &&& own(d, g, i, idx as int) == 0 ==> e.at(x as int) == dev::zeros()
        },
        None => idx < 136 ==> own(e, g, i, idx as int) == own(d, g, i, idx as int),
    }
}

/// Storing an inode with one more block of its own, or with a list.
#[verifier::spinoff_prover]
#[verifier::rlimit(60)]
proof fn lemma_ino_gains(d: DevV, g: Geo, i: u32, q: InoV, kk: int, x: u32)
    requires
        sound(d, g),
        disk::ino_at(d, g, i) is Some,
        x != 0,
        data_ok(d, g, x),
        forall|j: u32, k: int| #[trigger] own(d, g, j, k) != x,
        d.at(x as int) == dev::zeros(),
        ({
            let r = disk::ino_at(d, g, i)->0;
            ||| 0 <= kk < 8 && r.direct[kk] == 0 && q == (InoV { direct: r.direct.update(kk, x), ..r })
            ||| kk == 136 && r.indirect == 0 && q == (InoV { indirect: x, ..r })
        }),
    ensures
        ({
            let e = disk::ino_put(d, g, i, q);
            &&& apart_from(d, e, g, i)
            &&& disk::ino_at(e, g, i) == Some(q)
            &&& forall|k: int| #[trigger]
                own(e, g, i, k) == if k == kk {
                    x
                } else {
                    own(d, g, i, k)
                }
            &&& forall|l: int| !is_itab(g, l) ==> #[trigger] e.at(l) == d.at(l)
        }),
{
    let r = disk::ino_at(d, g, i)->0;
    let s = disk::ino_sector(g, i);
    let e = disk::ino_put(d, g, i, q);
    assert(is_itab(g, s) && is_meta(g, s));
    lemma_ino_put(d, g, i, q);
    assert forall|l: int| !is_itab(g, l) implies #[trigger] e.at(l) == d.at(l) by {}
    assert forall|b: u32| b < g.nblocks implies #[trigger] disk::taken(e, g, b) == disk::taken(d, g, b) by {
        let m = disk::map_sector(g, b);
        assert(is_map(g, m));
        assert(!is_itab(g, m));
    }
    assert forall|j: u32, k: int| #[trigger]
        own(e, g, j, k) == (if j == i && k == kk {
            x
        } else {
            own(d, g, j, k)
        }) by {
        if j != i {
            assert(disk::ino_at(e, g, j) == disk::ino_at(d, g, j));
            if let Some(y) = disk::ino_at(d, g, j) {
                if y.indirect != 0 {
                    assert(own(d, g, j, 136) == y.indirect);
                    assert(data_ok(d, g, own(d, g, j, 136)));
                    assert(e.at(y.indirect as int) == d.at(y.indirect as int));
                }
            }
        } else {
            if kk == 136 && 8 <= k < 136 {
                assert(e.at(x as int) == dev::zeros());
                assert(dev::word(dev::zeros(), (k - 8) * 4) == 0);
            }
            if r.indirect != 0 {
                assert(own(d, g, i, 136) == r.indirect);
                assert(data_ok(d, g, own(d, g, i, 136)));
                assert(e.at(r.indirect as int) == d.at(r.indirect as int));
            }
        }
    }
    lemma_gained(d, e, g, i, kk, x);
    assert forall|j: u32, k: int| j != i && own(d, g, j, k) != 0 implies e.at(
        #[trigger] own(d, g, j, k) as int,
    ) == d.at(own(d, g, j, k) as int) by {
        assert(data_ok(d, g, own(d, g, j, k)));
    }
}

/// Adding an entry to the list of inode `i`.
#[verifier::spinoff_prover]
#[verifier::rlimit(60)]
proof fn lemma_list_gains(d: DevV, g: Geo, i: u32, idx: int, x: u32)
    requires
        sound(d, g),
        disk::ino_at(d, g, i) is Some,
        (disk::ino_at(d, g, i)->0).indirect != 0,
        8 <= idx < 136,
        own(d, g, i, idx) == 0,
        x != 0,
        data_ok(d, g, x),
        forall|j: u32, k: int| #[trigger] own(d, g, j, k) != x,
    ensures
        ({
            let l = (disk::ino_at(d, g, i)->0).indirect;
            let e = d.put(l, dev::with_word(d.at(l as int), (idx - 8) * 4, x));
            &&& apart_from(d, e, g, i)
            &&& disk::ino_at(e, g, i) == disk::ino_at(d, g, i)
            &&& forall|k: int| #[trigger]
                own(e, g, i, k) == if k == idx {
                    x
                } else {
                    own(d, g, i, k)
                }
            &&& forall|y: int| y != l ==> #[trigger] e.at(y) == d.at(y)
        }),
{
    let r = disk::ino_at(d, g, i)->0;
    let l = r.indirect;
    let e = d.put(l, dev::with_word(d.at(l as int), (idx - 8) * 4, x));
    assert(own(d, g, i, 136) == l);
    assert(data_ok(d, g, l));
    assert(d.has(l as int));
    let b = d.at(l as int);
    assert(e.at(l as int) == dev::with_word(b, (idx - 8) * 4, x));
    assert forall|y: int| is_meta(g, y) implies #[trigger] e.at(y) == d.at(y) by {}
    assert forall|j: u32| #[trigger] disk::ino_at(e, g, j) == disk::ino_at(d, g, j) by {
        if 1 <= j <= g.ninodes {
            assert(is_meta(g, disk::ino_sector(g, j)));
        }
    }
    assert forall|y: u32| y < g.nblocks implies #[trigger] disk::taken(e, g, y) == disk::taken(d, g, y) by {
        assert(is_meta(g, disk::map_sector(g, y)));
    }
    assert forall|j: u32, k: int| #[trigger]
        own(e, g, j, k) == (if j == i && k == idx {
            x
        } else {
            own(d, g, j, k)
        }) by {
        assert(disk::ino_at(e, g, j) == disk::ino_at(d, g, j));
        if j != i {
            if let Some(y) = disk::ino_at(d, g, j) {
                if y.indirect != 0 {
                    assert(own(d, g, j, 136) == y.indirect);
                    assert(own(d, g, i, 136) != own(d, g, j, 136));
                }
            }
        } else if 8 <= k < 136 {
            dev::law_word_stored(b, (idx - 8) * 4, x, (k - 8) * 4);
        }
    }
    lemma_gained(d, e, g, i, idx, x);
    assert forall|j: u32, k: int| j != i && own(d, g, j, k) != 0 implies e.at(
        #[trigger] own(d, g, j, k) as int,
    ) == d.at(own(d, g, j, k) as int) by {
        assert(own(d, g, i, 136) != own(d, g, j, k));
    }
}

/// Same sectors, whatever the log says.
proof fn lemma_same_secs(d: DevV, e: DevV, g: Geo)
    requires
        sound(d, g),
        e.ready == d.ready,
        e.secs == d.secs,
    ensures
        sound(e, g),
        same_tree(d, e, g),
        forall|b: u32| #[trigger] disk::taken(e, g, b) == disk::taken(d, g, b),
        forall|l: int| #[trigger] e.at(l) == d.at(l),
{
    assert forall|l: int| #[trigger] e.at(l) == d.at(l) by {}
    lemma_same_tree(d, e, g);
    lemma_sound_same(d, e, g);
}

proof fn lemma_same_apart(d: DevV, e: DevV, g: Geo, i: u32)
    requires
        sound(d, g),
        sound(e, g),
        same_tree(d, e, g),
        e.secs.len() == d.secs.len(),
        forall|j: u32, k: int|
            own(d, g, j, k) != 0 ==> e.at(#[trigger] own(d, g, j, k) as int) == d.at(
                own(d, g, j, k) as int,
            ),
    ensures
        apart_from(d, e, g, i),
{
}

/// A grabbed block: everyone keeps theirs.
proof fn lemma_grabbed_apart(d: DevV, g: Geo, i: u32)
    requires
        sound(d, g),
    ensures
        apart_from(d, disk::grabbed(d, g).0, g, i),
        forall|j: u32, k: int|
            own(d, g, j, k) != 0 ==> disk::grabbed(d, g).0.at(#[trigger] own(d, g, j, k) as int) == d.at(
                own(d, g, j, k) as int,
            ),
{
    lemma_grabbed(d, g);
    let e = disk::grabbed(d, g).0;
    assert forall|j: u32, k: int| own(d, g, j, k) != 0 implies e.at(#[trigger] own(d, g, j, k) as int)
        == d.at(own(d, g, j, k) as int) by {
        assert(data_ok(d, g, own(d, g, j, k)));
    }
    lemma_same_apart(d, e, g, i);
}

/// The list of an inode, made if need be.
#[verifier::spinoff_prover]
#[verifier::rlimit(60)]
proof fn lemma_listed(d: DevV, g: Geo, i: u32)
    requires
        sound(d, g),
        disk::ino_at(d, g, i) is Some,
    ensures
        ({
            let r = disk::ino_at(d, g, i)->0;
            let (e, q, ok) = disk::listed(d, g, i, r);
            &&& apart_from(d, e, g, i)
            &&& disk::ino_at(e, g, i) == Some(q)
            &&& q.kind == r.kind
            &&& q.size == r.size
            &&& ok ==> q.indirect != 0
            &&& forall|k: int| 0 <= k < 136 ==> #[trigger] own(e, g, i, k) == own(d, g, i, k)
            &&& forall|k: int|
                0 <= k < 136 && own(d, g, i, k) != 0 ==> e.at(#[trigger] own(d, g, i, k) as int) == d.at(
                    own(d, g, i, k) as int,
                )
        }),
{
    let r = disk::ino_at(d, g, i)->0;
    if r.indirect == 0 {
        lemma_grabbed(d, g);
        lemma_grabbed_apart(d, g, i);
        let (d1, b) = disk::grabbed(d, g);
        assert(disk::ino_at(d1, g, i) == Some(r));
        if let Some(x) = b {
            let d2 = d1.put(x, dev::zeros());
            assert(d1.has(x as int));
            assert(d2.secs =~= d1.secs);
            lemma_same_secs(d1, d2, g);
            lemma_same_apart(d1, d2, g, i);
            let q = InoV { indirect: x, ..r };
            assert forall|j: u32, k: int| #[trigger] own(d2, g, j, k) != x by {
                assert(own(d2, g, j, k) == own(d1, g, j, k));
                assert(own(d1, g, j, k) == own(d, g, j, k));
            }
            assert(disk::ino_at(d2, g, i) == Some(r));
            assert(data_ok(d2, g, x)) by {
                assert(disk::taken(d2, g, x) == disk::taken(d1, g, x));
            }
            lemma_ino_gains(d2, g, i, q, 136, x);
            let e = disk::ino_put(d2, g, i, q);
            lemma_apart_trans(d, d1, d2, g, i);
            lemma_apart_trans(d, d2, e, g, i);
            assert forall|k: int| 0 <= k < 136 implies #[trigger] own(e, g, i, k) == own(d, g, i, k) by {
                assert(own(d2, g, i, k) == own(d1, g, i, k));
                assert(own(d1, g, i, k) == own(d, g, i, k));
            }
            assert forall|k: int| 0 <= k < 136 && own(d, g, i, k) != 0 implies e.at(
                #[trigger] own(d, g, i, k) as int,
            ) == d.at(own(d, g, i, k) as int) by {
                let y = own(d, g, i, k);
                assert(data_ok(d, g, y));
                assert(d2.at(y as int) == d1.at(y as int));
                assert(!is_itab(g, y as int));
            }
        }
    } else {
        lemma_same_apart(d, d, g, i);
    }
}

/// Looking for a block of inode `i`, and making it if need be, touches nothing
/// that others have and nothing that the inode had.
#[verifier::spinoff_prover]
#[verifier::rlimit(60)]
pub proof fn lemma_grown(d: DevV, g: Geo, i: u32, idx: u32)
    requires
        sound(d, g),
        disk::ino_at(d, g, i) is Some,
    ensures
        ({
            let (e, q, b) = disk::grown(d, g, i, disk::ino_at(d, g, i)->0, idx);
            grows(d, g, i, idx, e, q, b)
        }),
{
    let r = disk::ino_at(d, g, i)->0;
    let (e, q, b) = disk::grown(d, g, i, r, idx);
    lemma_same_apart(d, d, g, i);
    if idx < 8 {
        assert(own(d, g, i, idx as int) == r.direct[idx as int]);
        if r.direct[idx as int] == 0 {
            lemma_grabbed(d, g);
            lemma_grabbed_apart(d, g, i);
            let (d1, x) = disk::grabbed(d, g);
            assert(disk::ino_at(d1, g, i) == Some(r));
            if let Some(y) = x {
                assert forall|j: u32, k: int| #[trigger] own(d1, g, j, k) != y by {
                    assert(own(d1, g, j, k) == own(d, g, j, k));
                }
                lemma_ino_gains(d1, g, i, q, idx as int, y);
                lemma_apart_trans(d, d1, e, g, i);
                assert forall|k: int| 0 <= k < 136 && k != idx implies #[trigger] own(e, g, i, k) == own(
                    d,
                    g,
                    i,
                    k,
                ) by {
                    assert(own(d1, g, i, k) == own(d, g, i, k));
                }
                assert forall|k: int| 0 <= k < 136 && own(d, g, i, k) != 0 implies e.at(
                    #[trigger] own(d, g, i, k) as int,
                ) == d.at(own(d, g, i, k) as int) by {
                    let z = own(d, g, i, k);
                    assert(data_ok(d, g, z));
                    assert(d1.at(z as int) == d.at(z as int));
                    assert(!is_itab(g, z as int));
                }
                assert(e.at(y as int) == dev::zeros()) by {
                    assert(!is_itab(g, y as int));
                    assert(e.at(y as int) == d1.at(y as int));
                }
            } else {
                assert forall|k: int| 0 <= k < 136 implies #[trigger] own(e, g, i, k) == own(d, g, i, k) by {}
            }
        }
    } else if idx < MAX_BLOCKS {
        lemma_listed(d, g, i);
        let (d1, r1, ok) = disk::listed(d, g, i, r);
        assert(own(d1, g, i, idx as int) == own(d, g, i, idx as int));
        if ok {
            let l = d1.at(r1.indirect as int);
            let w = dev::word(l, (idx - 8) * 4);
            assert(own(d1, g, i, idx as int) == w);
            if w == 0 {
                lemma_grabbed(d1, g);
                lemma_grabbed_apart(d1, g, i);
                let (d2, x) = disk::grabbed(d1, g);
                assert(disk::ino_at(d2, g, i) == Some(r1));
                lemma_apart_trans(d, d1, d2, g, i);
                if let Some(y) = x {
                    assert forall|j: u32, k: int| #[trigger] own(d2, g, j, k) != y by {
                        assert(own(d2, g, j, k) == own(d1, g, j, k));
                    }
                    assert(own(d1, g, i, 136) == r1.indirect);
                    assert(d2.at(r1.indirect as int) == l);
                    assert(own(d2, g, i, idx as int) == own(d1, g, i, idx as int));
                    lemma_list_gains(d2, g, i, idx as int, y);
                    lemma_apart_trans(d, d2, e, g, i);
                    assert forall|k: int| 0 <= k < 136 && k != idx implies #[trigger] own(e, g, i, k) == own(
                        d,
                        g,
                        i,
                        k,
                    ) by {
                        assert(own(d2, g, i, k) == own(d1, g, i, k));
                        assert(own(d1, g, i, k) == own(d, g, i, k));
                    }
                    assert forall|k: int| 0 <= k < 136 && own(d, g, i, k) != 0 implies e.at(
                        #[trigger] own(d, g, i, k) as int,
                    ) == d.at(own(d, g, i, k) as int) by {
                        let z = own(d, g, i, k);
                        assert(own(d1, g, i, k) == z);
                        assert(d1.at(z as int) == d.at(z as int));
                        assert(d2.at(z as int) == d1.at(z as int));
                        assert(own(d1, g, i, k) != own(d1, g, i, 136));
                    }
                    assert(e.at(y as int) == dev::zeros()) by {
                        assert(own(d1, g, i, 136) != y);
                        assert(e.at(y as int) == d2.at(y as int));
                    }
                } else {
                    assert forall|k: int| 0 <= k < 136 implies #[trigger] own(e, g, i, k) == own(d, g, i, k) by {
                        assert(own(d2, g, i, k) == own(d1, g, i, k));
                        assert(own(d1, g, i, k) == own(d, g, i, k));
                    }
                    assert forall|k: int| 0 <= k < 136 && own(d, g, i, k) != 0 implies e.at(
                        #[trigger] own(d, g, i, k) as int,
                    ) == d.at(own(d, g, i, k) as int) by {
                        let z = own(d, g, i, k);
                        assert(own(d1, g, i, k) == z);
                        assert(d2.at(z as int) == d1.at(z as int));
                    }
                }
            }
        }
    }
}

// ---- writing and reading ----

pub proof fn lemma_block_own(d: DevV, r: InoV, idx: u32)
    ensures
        disk::block_of(d, r, idx) == if idx < 136 && own_of(d, r, idx as int) != 0 {
            Some(own_of(d, r, idx as int))
        } else {
            None
        },
{
}

/// After some of the bytes of `buf` are written behind `off`: those are in the
/// file, other bytes of the file are as before, and so is everyone else.
pub open spec fn wrote(d: DevV, g: Geo, i: u32, off: int, buf: Seq<u8>, a: int, n: int, e: DevV, q: InoV) -> bool {
    let r = disk::ino_at(d, g, i)->0;
    &&& apart_from(d, e, g, i)
    &&& disk::ino_at(e, g, i) == Some(q)
    &&& q.kind == r.kind
    &&& q.size == r.size
    &&& a <= n <= buf.len()
    &&& bytes_put(d, r, e, q, off, buf, a, n)
}

/// Byte `pos` of a file, if it has it.
pub open spec fn seen(d: DevV, r: InoV, pos: int) -> Option<u8> {
    if disk::has_byte(d, r, pos) {
        Some(disk::byte_of(d, r, pos))
    } else {
        None
    }
}

/// Bytes `a` to `n` of `buf` are in the file behind `off`; the file's other
/// bytes are as before.
pub open spec fn bytes_put(
    d: DevV,
    r: InoV,
    e: DevV,
    q: InoV,
    off: int,
    buf: Seq<u8>,
    a: int,
    n: int,
) -> bool {
    &&& forall|pos: int|
        off + a <= pos < off + n ==> #[trigger] seen(e, q, pos) == Some(buf[pos - off])
    &&& forall|pos: int|
        0 <= pos < 0x1_0000_0000 && !(off + a <= pos < off + n) && seen(d, r, pos) is Some
            ==> #[trigger] seen(e, q, pos) == seen(d, r, pos)
}

proof fn lemma_bytes_trans(
    d: DevV,
    r: InoV,
    e: DevV,
    q: InoV,
    f: DevV,
    z: InoV,
    off: int,
    buf: Seq<u8>,
    a: int,
    b: int,
    c: int,
)
    requires
        0 <= off,
        0 <= a <= b <= c <= buf.len(),
        off + buf.len() <= u32::MAX,
        bytes_put(d, r, e, q, off, buf, a, b),
        bytes_put(e, q, f, z, off, buf, b, c),
    ensures
        bytes_put(d, r, f, z, off, buf, a, c),
{
    assert forall|pos: int| off + a <= pos < off + c implies #[trigger] seen(f, z, pos) == Some(
        buf[pos - off],
    ) by {
        if pos < off + b {
            assert(seen(e, q, pos) == Some(buf[pos - off]));
        }
    }
    assert forall|pos: int|
        0 <= pos < 0x1_0000_0000 && !(off + a <= pos < off + c) && seen(d, r, pos) is Some implies #[trigger] seen(
        f,
        z,
        pos,
    ) == seen(d, r, pos) by {
        assert(seen(e, q, pos) == seen(d, r, pos));
    }
}

#[verifier::spinoff_prover]
#[verifier::rlimit(60)]
proof fn lemma_one_block(d: DevV, g: Geo, i: u32, off: int, buf: Seq<u8>, n: int)
    requires
        sound(d, g),
        disk::ino_at(d, g, i) is Some,
        0 <= off,
        0 <= n < buf.len(),
        off + buf.len() <= u32::MAX,
        disk::grown(d, g, i, disk::ino_at(d, g, i)->0, ((off + n) / 512) as u32).2 is Some,
    ensures
        ({
            let pos = off + n;
            let (e, q, b) = disk::grown(d, g, i, disk::ino_at(d, g, i)->0, (pos / 512) as u32);
            let p = disk::part(buf, n, pos);
            let f = e.put(b->0, disk::over(e.at((b->0) as int), pos % 512, p));
            &&& wrote(d, g, i, off, buf, n, n + p.len(), f, q)
            &&& p.len() > 0
        }),
{
    let r = disk::ino_at(d, g, i)->0;
    let pos = off + n;
    let idx = (pos / 512) as u32;
    let (e, q, b) = disk::grown(d, g, i, r, idx);
    lemma_grown(d, g, i, idx);
    let x = b->0;
    let p = disk::part(buf, n, pos);
    let v = disk::over(e.at(x as int), pos % 512, p);
    let f = e.put(x, v);
    assert(own(e, g, i, idx as int) == x);
    assert(data_ok(e, g, x));
    assert(e.at(x as int).len() == SECTOR);
    lemma_data_put(e, g, i, idx as int, v);
    lemma_apart_trans(d, e, f, g, i);
    assert(disk::ino_at(f, g, i) == Some(q));
    lemma_one_block_bytes(d, e, f, g, i, off, buf, n, r, q, x);
}

/// The bytes of the file after one block is written.
#[verifier::spinoff_prover]
#[verifier::rlimit(60)]
proof fn lemma_one_block_bytes(
    d: DevV,
    e: DevV,
    f: DevV,
    g: Geo,
    i: u32,
    off: int,
    buf: Seq<u8>,
    n: int,
    r: InoV,
    q: InoV,
    x: u32,
)
    requires
        sound(d, g),
        disk::ino_at(d, g, i) == Some(r),
        disk::ino_at(f, g, i) == Some(q),
        0 <= off,
        0 <= n < buf.len(),
        off + buf.len() <= u32::MAX,
        grows(d, g, i, ((off + n) / 512) as u32, e, q, Some(x)),
        same_tree(e, f, g),
        f.at(x as int) == disk::over(
            e.at(x as int),
            (off + n) % 512,
            disk::part(buf, n, off + n),
        ),
        e.at(x as int).len() == SECTOR,
        forall|l: int| l != x ==> #[trigger] f.at(l) == e.at(l),
    ensures
        bytes_put(d, r, f, q, off, buf, n, (n + disk::part(buf, n, off + n).len()) as int),
{
    let pos = off + n;
    let idx = (pos / 512) as u32;
    let p = disk::part(buf, n, pos);
    let v = f.at(x as int);
    assert forall|y: int| off + n <= y < off + n + p.len() implies #[trigger] seen(f, q, y) == Some(
        buf[y - off],
    ) by {
        assert(y / 512 == pos / 512);
        lemma_block_own(f, q, idx);
        assert(own(f, g, i, idx as int) == own(e, g, i, idx as int));
        assert(own(f, g, i, idx as int) == own_of(f, q, idx as int));
        assert(y % 512 == pos % 512 + (y - pos));
        assert(v[y % 512] == p[y - pos]);
    }
    assert forall|y: int|
        0 <= y < 0x1_0000_0000 && !(off + n <= y < off + n + p.len()) && seen(d, r, y) is Some implies #[trigger] seen(
        f,
        q,
        y,
    ) == seen(d, r, y) by {
        let k = (y / 512) as u32;
        lemma_block_own(d, r, k);
        lemma_block_own(f, q, k);
        assert(own(d, g, i, k as int) == own_of(d, r, k as int));
        assert(own(f, g, i, k as int) == own_of(f, q, k as int));
        assert(own(f, g, i, k as int) == own(e, g, i, k as int));
        let z = own(d, g, i, k as int);
        if k == idx {
            assert(own(e, g, i, idx as int) == z);
            assert(x == z);
            assert(e.at(z as int) == d.at(z as int));
            assert(!(pos % 512 <= y % 512 < pos % 512 + p.len()));
            assert(v[y % 512] == e.at(x as int)[y % 512]);
        } else {
            assert(own(e, g, i, k as int) == z);
            assert(own(e, g, i, k as int) != own(e, g, i, idx as int));
            assert(e.at(z as int) == d.at(z as int));
            assert(f.at(z as int) == e.at(z as int));
        }
    }
}

proof fn lemma_wrote_trans(
    d: DevV,
    e: DevV,
    f: DevV,
    g: Geo,
    i: u32,
    off: int,
    buf: Seq<u8>,
    a: int,
    b: int,
    c: int,
    q: InoV,
    z: InoV,
)
    requires
        0 <= off,
        0 <= a,
        off + buf.len() <= u32::MAX,
        wrote(d, g, i, off, buf, a, b, e, q),
        wrote(e, g, i, off, buf, b, c, f, z),
    ensures
        wrote(d, g, i, off, buf, a, c, f, z),
{
    lemma_apart_trans(d, e, f, g, i);
    lemma_bytes_trans(d, disk::ino_at(d, g, i)->0, e, q, f, z, off, buf, a, b, c);
}

/// All bytes that get written are in the file afterwards.
pub proof fn lemma_put_bytes(d: DevV, g: Geo, i: u32, off: int, buf: Seq<u8>, n: int)
    requires
        sound(d, g),
        disk::ino_at(d, g, i) is Some,
        0 <= off,
        0 <= n <= buf.len(),
        off + buf.len() <= u32::MAX,
    ensures
        ({
            let (e, q, m) = disk::put_bytes(d, g, i, disk::ino_at(d, g, i)->0, off, buf, n);
            wrote(d, g, i, off, buf, n, m, e, q)
        }),
    decreases buf.len() - n,
{
    let r = disk::ino_at(d, g, i)->0;
    lemma_same_apart(d, d, g, i);
    if n < buf.len() {
        let pos = off + n;
        let idx = (pos / 512) as u32;
        let (e, q, b) = disk::grown(d, g, i, r, idx);
        lemma_grown(d, g, i, idx);
        if let Some(x) = b {
            lemma_one_block(d, g, i, off, buf, n);
            let p = disk::part(buf, n, pos);
            let f = e.put(x, disk::over(e.at(x as int), pos % 512, p));
            lemma_put_bytes(f, g, i, off, buf, (n + p.len()) as int);
            let (h, z, m) = disk::put_bytes(f, g, i, q, off, buf, (n + p.len()) as int);
            lemma_wrote_trans(d, f, h, g, i, off, buf, n, (n + p.len()) as int, m, q, z);
        } else {
            assert forall|y: int| 0 <= y < 0x1_0000_0000 && seen(d, r, y) is Some implies #[trigger] seen(
                e,
                q,
                y,
            ) == seen(d, r, y) by {
                let k = (y / 512) as u32;
                lemma_block_own(d, r, k);
                lemma_block_own(e, q, k);
                assert(own(d, g, i, k as int) == own_of(d, r, k as int));
                assert(own(e, g, i, k as int) == own_of(e, q, k as int));
                assert(own(e, g, i, k as int) == own(d, g, i, k as int));
                assert(e.at(own(d, g, i, k as int) as int) == d.at(own(d, g, i, k as int) as int));
            }
        }
    }
}

/// A size change touches nothing else.
pub proof fn lemma_resized(d: DevV, g: Geo, i: u32, size: u32)
    requires
        sound(d, g),
        disk::ino_at(d, g, i) is Some,
    ensures
        ({
            let r = disk::ino_at(d, g, i)->0;
            let q = InoV { size, ..r };
            let e = disk::ino_put(d, g, i, q);
            &&& apart_from(d, e, g, i)
            &&& disk::ino_at(e, g, i) == Some(q)
            &&& forall|pos: int| #[trigger] seen(e, q, pos) == seen(d, r, pos)
        }),
{
    let r = disk::ino_at(d, g, i)->0;
    let q = InoV { size, ..r };
    let e = disk::ino_put(d, g, i, q);
    let s = disk::ino_sector(g, i);
    assert(is_itab(g, s) && is_meta(g, s));
    lemma_ino_put(d, g, i, q);
    assert forall|b: u32| b < g.nblocks implies #[trigger] disk::taken(e, g, b) == disk::taken(d, g, b) by {
        assert(is_map(g, disk::map_sector(g, b)));
        assert(!is_itab(g, disk::map_sector(g, b)));
    }
    assert forall|j: u32, k: int| #[trigger] own(e, g, j, k) == own(d, g, j, k) by {
        if let Some(y) = disk::ino_at(d, g, j) {
            if y.indirect != 0 {
                assert(own(d, g, j, 136) == y.indirect);
                assert(data_ok(d, g, own(d, g, j, 136)));
                assert(e.at(y.indirect as int) == d.at(y.indirect as int));
            }
        }
        if j != i {
            assert(disk::ino_at(e, g, j) == disk::ino_at(d, g, j));
        }
    }
    assert(sound(e, g)) by {
        assert forall|l: int| #[trigger] is_meta(g, l) implies e.has(l) by {}
        assert forall|x: u32| x < g.nblocks && !(#[trigger] disk::taken(e, g, x)) implies x != 0 && !is_meta(
            g,
            x as int,
        ) by {
            assert(disk::taken(e, g, x) == disk::taken(d, g, x));
        }
        assert forall|j: u32, k: int| (#[trigger] own(e, g, j, k)) != 0 implies data_ok(
            e,
            g,
            own(e, g, j, k),
        ) by {
            assert(own(d, g, j, k) == own(e, g, j, k));
            assert(data_ok(d, g, own(d, g, j, k)));
            assert(disk::taken(e, g, own(e, g, j, k)));
        }
        assert forall|j: u32, k: int, m: u32, n: int|
            (j != m || k != n) && (#[trigger] own(e, g, j, k)) != 0 implies own(e, g, j, k)
            != #[trigger] own(e, g, m, n) by {
            assert(own(d, g, j, k) == own(e, g, j, k));
            assert(own(d, g, m, n) == own(e, g, m, n));
        }
    }
    assert forall|j: u32, k: int| j != i && own(d, g, j, k) != 0 implies e.at(
        #[trigger] own(d, g, j, k) as int,
    ) == d.at(own(d, g, j, k) as int) by {
        assert(data_ok(d, g, own(d, g, j, k)));
    }
    assert forall|pos: int| #[trigger] seen(e, q, pos) == seen(d, r, pos) by {
        let k = (pos / 512) as u32;
        lemma_block_own(d, r, k);
        lemma_block_own(e, q, k);
        assert(own(d, g, i, k as int) == own_of(d, r, k as int));
        assert(own(e, g, i, k as int) == own_of(e, q, k as int));
        if k < 136 && own(d, g, i, k as int) != 0 {
            assert(data_ok(d, g, own(d, g, i, k as int)));
        }
    }
}

/// Directories other than inode `i` hold what they held.
pub proof fn lemma_dents_same(d: DevV, e: DevV, g: Geo, i: u32, j: u32, name: Seq<u8>, n: int)
    requires
        sound(d, g),
        apart_from(d, e, g, i),
        j != i,
        disk::ino_at(d, g, j) is Some,
        0 <= n,
    ensures
        disk::find_dent(e, disk::ino_at(d, g, j)->0, name, n) == disk::find_dent(
            d,
            disk::ino_at(d, g, j)->0,
            name,
            n,
        ),
        forall|k: int|
            0 <= k < disk::dent_count(disk::ino_at(d, g, j)->0) ==> #[trigger] disk::dent_at(
                e,
                disk::ino_at(d, g, j)->0,
                k,
            ) == disk::dent_at(d, disk::ino_at(d, g, j)->0, k),
    decreases disk::dent_count(disk::ino_at(d, g, j)->0) - n,
{
    let r = disk::ino_at(d, g, j)->0;
    assert(disk::ino_at(e, g, j) == Some(r));
    assert forall|k: int| 0 <= k < disk::dent_count(r) implies #[trigger] disk::dent_at(e, r, k)
        == disk::dent_at(d, r, k) && disk::dent_sector(e, r, k) == disk::dent_sector(d, r, k) by {
        let b = disk::dent_block(k);
        lemma_block_own(d, r, b);
        lemma_block_own(e, r, b);
        assert(own(d, g, j, b as int) == own_of(d, r, b as int));
        assert(own(e, g, j, b as int) == own_of(e, r, b as int));
        assert(own(e, g, j, b as int) == own(d, g, j, b as int));
        if own(d, g, j, b as int) != 0 {
            assert(e.at(own(d, g, j, b as int) as int) == d.at(own(d, g, j, b as int) as int));
        }
    }
    if n < disk::dent_count(r) {
        assert(disk::dent_at(e, r, n) == disk::dent_at(d, r, n));
        lemma_dents_same(d, e, g, i, j, name, n + 1);
    }
}

pub proof fn lemma_find_range(d: DevV, r: InoV, name: Seq<u8>, n: int)
    requires
        0 <= n,
    ensures
        disk::find_dent(d, r, name, n) matches Some(k) ==> n <= k < disk::dent_count(r) && (disk::dent_at(
            d,
            r,
            k,
        ) matches Some(x) && x.0 == name),
    decreases disk::dent_count(r) - n,
{
    if n < disk::dent_count(r) {
        lemma_find_range(d, r, name, n + 1);
    }
}

/// Names lead where they led, as long as inode `i` is a file before and after.
proof fn lemma_child_same(d: DevV, e: DevV, g: Geo, i: u32, j: u32, name: Seq<u8>)
    requires
        sound(d, g),
        apart_from(d, e, g, i),
        disk::ino_at(d, g, i) matches Some(r) && r.kind == KIND_FILE,
        disk::ino_at(e, g, i) matches Some(r) && r.kind == KIND_FILE,
    ensures
        disk::child(e, g, j, name) == disk::child(d, g, j, name),
{
    if j != i {
        assert(disk::ino_at(e, g, j) == disk::ino_at(d, g, j));
        if let Some(r) = disk::ino_at(d, g, j) {
            lemma_dents_same(d, e, g, i, j, name, 0);
            lemma_find_range(d, r, name, 0);
        }
    }
}

pub proof fn lemma_walk_same(d: DevV, e: DevV, g: Geo, i: u32, cur: u32, p: Seq<u8>, x: int)
    requires
        sound(d, g),
        apart_from(d, e, g, i),
        disk::ino_at(d, g, i) matches Some(r) && r.kind == KIND_FILE,
        disk::ino_at(e, g, i) matches Some(r) && r.kind == KIND_FILE,
        0 <= x,
    ensures
        disk::walk_from(e, g, cur, p, x) == disk::walk_from(d, g, cur, p, x),
    decreases p.len() - x,
{
    if x < p.len() {
        let s = disk::slash(p, x);
        if s < x || s > p.len() {
        } else if s == x {
            lemma_walk_same(d, e, g, i, cur, p, x + 1);
        } else {
            lemma_child_same(d, e, g, i, cur, p.subrange(x, s));
            if let Some(c) = disk::child(d, g, cur, p.subrange(x, s)) {
                if c != i {
                    assert(disk::ino_at(e, g, c) == disk::ino_at(d, g, c));
                }
                lemma_walk_same(d, e, g, i, c, p, s);
            }
        }
    }
}

proof fn lemma_readable_all(d: DevV, r: InoV, off: int, n: int)
    requires
        0 <= off,
        0 <= n,
        off + n <= r.size,
        forall|pos: int| off <= pos < off + n ==> #[trigger] disk::has_byte(d, r, pos),
    ensures
        disk::readable(d, r, off, n) == n,
    decreases n,
{
    if n > 0 {
        assert(disk::has_byte(d, r, off));
        lemma_readable_all(d, r, off + 1, n - 1);
    }
}

/// What is written is read back: after a write to a file on a sound disk, the
/// disk is sound, no other file is touched, the path leads to the same file, reading at the same place
/// gives exactly the bytes that were written, and every other byte of the file
/// is as before.
pub proof fn law_write_then_read(d: DevV, g: Geo, path: Seq<u8>, off: int, buf: Seq<u8>)
    requires
        sound(d, g),
        disk::file_at(d, g, path) is Some,
        0 <= off,
        off + buf.len() <= u32::MAX,
    ensures
        ({
            let (i, r) = disk::file_at(d, g, path)->0;
            let (e, n) = disk::file_put(d, g, i, r, off, buf);
            let q = (disk::file_at(e, g, path)->0).1;
            &&& apart_from(d, e, g, i)
            &&& disk::file_at(e, g, path) == Some((i, q))
            &&& 0 <= n <= buf.len()
            &&& q.size == if off + n > r.size {
                off + n
            } else {
                r.size as int
            }
            &&& disk::readable(e, q, off, n) == n
            &&& forall|k: int| 0 <= k < n ==> disk::byte_of(e, q, off + k) == #[trigger] buf[k]
            &&& forall|pos: int|
                0 <= pos < r.size && !(off <= pos < off + n) && disk::has_byte(d, r, pos)
                    ==> #[trigger] disk::byte_of(e, q, pos) == disk::byte_of(d, r, pos)
        }),
{
    let (i, r) = disk::file_at(d, g, path)->0;
    lemma_put_bytes(d, g, i, off, buf, 0);
    let (e1, q1, n) = disk::put_bytes(d, g, i, r, off, buf, 0);
    let (e, m) = disk::file_put(d, g, i, r, off, buf);
    assert(disk::ino_at(e1, g, i) == Some(q1));
    lemma_resized(e1, g, i, (off + n) as u32);
    let q = if off + n > q1.size {
        InoV { size: (off + n) as u32, ..q1 }
    } else {
        q1
    };
    assert(disk::ino_at(e, g, i) == Some(q));
    assert(apart_from(d, e, g, i)) by {
        lemma_apart_trans(d, e1, e, g, i);
    }
    lemma_walk_same(d, e, g, i, g.root, path, 0);
    assert(disk::file_at(e, g, path) == Some((i, q)));
    assert forall|pos: int| off <= pos < off + n implies #[trigger] disk::has_byte(e, q, pos) by {
        assert(seen(e1, q1, pos) == Some(buf[pos - off]));
        assert(seen(e, q, pos) == seen(e1, q1, pos));
    }
    lemma_readable_all(e, q, off, n);
    assert forall|k: int| 0 <= k < n implies disk::byte_of(e, q, off + k) == #[trigger] buf[k] by {
        assert(seen(e1, q1, off + k) == Some(buf[off + k - off]));
        assert(seen(e, q, off + k) == seen(e1, q1, off + k));
    }
    assert forall|pos: int|
        0 <= pos < r.size && !(off <= pos < off + n) && disk::has_byte(d, r, pos) implies #[trigger] disk::byte_of(
        e,
        q,
        pos,
    ) == disk::byte_of(d, r, pos) by {
        assert(seen(d, r, pos) is Some);
        assert(seen(e1, q1, pos) == seen(d, r, pos));
        assert(seen(e, q, pos) == seen(e1, q1, pos));
    }
}

/// A write to one file changes no other: same size, same bytes.
pub proof fn law_write_keeps_others(d: DevV, g: Geo, i: u32, off: int, buf: Seq<u8>, j: u32, pos: int)
    requires
        sound(d, g),
        disk::ino_at(d, g, i) matches Some(r) && r.kind == KIND_FILE,
        0 <= off,
        off + buf.len() <= u32::MAX,
        j != i,
        disk::ino_at(d, g, j) is Some,
        0 <= pos < 0x1_0000_0000,
    ensures
        ({
            let e = disk::file_put(d, g, i, disk::ino_at(d, g, i)->0, off, buf).0;
            let r = disk::ino_at(d, g, j)->0;
            &&& disk::ino_at(e, g, j) == Some(r)
            &&& disk::has_byte(e, r, pos) == disk::has_byte(d, r, pos)
            &&& disk::has_byte(d, r, pos) ==> disk::byte_of(e, r, pos) == disk::byte_of(d, r, pos)
        }),
{
    let r0 = disk::ino_at(d, g, i)->0;
    lemma_put_bytes(d, g, i, off, buf, 0);
    let (e1, q1, n) = disk::put_bytes(d, g, i, r0, off, buf, 0);
    let e = disk::file_put(d, g, i, r0, off, buf).0;
    lemma_resized(e1, g, i, (off + n) as u32);
    assert(apart_from(d, e, g, i)) by {
        lemma_apart_trans(d, e1, e, g, i);
    }
    let r = disk::ino_at(d, g, j)->0;
    let k = (pos / 512) as u32;
    assert(disk::ino_at(e, g, j) == Some(r));
    lemma_block_own(d, r, k);
    lemma_block_own(e, r, k);
    assert(own(d, g, j, k as int) == own_of(d, r, k as int));
    assert(own(e, g, j, k as int) == own_of(e, r, k as int));
    assert(own(e, g, j, k as int) == own(d, g, j, k as int));
    if own(d, g, j, k as int) != 0 {
        assert(e.at(own(d, g, j, k as int) as int) == d.at(own(d, g, j, k as int) as int));
    }
}

} // verus!
