//! What becomes of names and files when they are made, cut and removed.
use crate::fs::dev;
use crate::fs::dev::{DevV, SECTOR};
use crate::fs::disk;
use crate::fs::disk::{Geo, InoV, DENT, KIND_DIR, KIND_FILE, NAME_LEN};
use crate::fs::sound;
use vstd::prelude::*;

verus! {

// ---- giving blocks back ----

/// Bitmap, inode table and blocks are there.
pub open spec fn whole(d: DevV, g: Geo) -> bool {
    &&& g.wf()
    &&& d.wf()
    &&& d.ready
    &&& forall|l: int| #[trigger] sound::is_meta(g, l) ==> d.has(l)
    &&& forall|l: int| !(#[trigger] sound::is_map(g, l) && sound::is_itab(g, l))
    &&& g.nblocks <= d.secs.len()
}

/// From `d` to `e` only the bitmap changed.
pub open spec fn map_only(d: DevV, e: DevV, g: Geo) -> bool {
    &&& whole(e, g)
    &&& e.secs.len() == d.secs.len()
    &&& forall|l: int| !sound::is_map(g, l) ==> #[trigger] e.at(l) == d.at(l)
}

/// A bit cleared gives one block back.
proof fn lemma_unmarked(d: DevV, g: Geo, b: u32)
    requires
        whole(d, g),
        b < g.nblocks,
    ensures
        map_only(d, disk::unmarked(d, g, b), g),
        forall|x: u32|
            x < g.nblocks ==> #[trigger] disk::taken(disk::unmarked(d, g, b), g, x) == (x != b
                && disk::taken(d, g, x)),
{
    let s = disk::map_sector(g, b);
    assert(sound::is_meta(g, s) && sound::is_map(g, s));
    let y = d.at(s);
    let e = disk::unmarked(d, g, b);
    assert(e.at(s) == y.update(disk::map_off(b), disk::bit_clear(y[disk::map_off(b)], (b % 8) as int)));
    assert forall|x: u32| x < g.nblocks implies #[trigger] disk::taken(e, g, x) == (x != b && disk::taken(
        d,
        g,
        x,
    )) by {
        assert(sound::is_map(g, disk::map_sector(g, x)));
        assert(sound::is_meta(g, disk::map_sector(g, x)));
        sound::law_bits(y[disk::map_off(b)], (b % 8) as int, (x % 8) as int);
        if disk::map_sector(g, x) == s && disk::map_off(x) == disk::map_off(b) {
            assert(x / 8 == b / 8);
        }
    }
    assert forall|l: int| #[trigger] sound::is_meta(g, l) implies e.has(l) by {
        assert(d.has(l));
    }
}

/// The block is among the first `k` of the inode's own.
pub open spec fn among_direct(r: InoV, k: int, x: u32) -> bool {
    exists|m: int| 0 <= m < k && x != 0 && #[trigger] r.direct[m] == x
}

proof fn lemma_free_direct(d: DevV, g: Geo, r: InoV, k: int)
    requires
        whole(d, g),
        0 <= k <= 8,
        forall|m: int| 0 <= m < 8 ==> (#[trigger] r.direct[m]) == 0 || r.direct[m] < g.nblocks,
    ensures
        map_only(d, disk::free_direct(d, g, r, k), g),
        forall|x: u32|
            x < g.nblocks ==> #[trigger] disk::taken(disk::free_direct(d, g, r, k), g, x) == (disk::taken(
                d,
                g,
                x,
            ) && !among_direct(r, k, x)),
    decreases k,
{
    if k > 0 {
        lemma_free_direct(d, g, r, k - 1);
        let e = disk::free_direct(d, g, r, k - 1);
        let f = disk::free_direct(d, g, r, k);
        let b = r.direct[k - 1];
        if b != 0 {
            lemma_unmarked(e, g, b);
        }
        assert forall|x: u32| x < g.nblocks implies #[trigger] disk::taken(f, g, x) == (disk::taken(d, g, x)
            && !among_direct(r, k, x)) by {
            assert(disk::taken(e, g, x) == (disk::taken(d, g, x) && !among_direct(r, k - 1, x)));
            if among_direct(r, k, x) && !among_direct(r, k - 1, x) {
                let m = choose|m: int| 0 <= m < k && x != 0 && #[trigger] r.direct[m] == x;
                assert(m == k - 1);
            }
            if x == b && b != 0 {
                assert(r.direct[k - 1] == x);
            }
        }
        assert forall|l: int| !sound::is_map(g, l) implies #[trigger] f.at(l) == d.at(l) by {
            assert(e.at(l) == d.at(l));
        }
    }
}

/// The block is among the first `k` that a list names.
pub open spec fn among_listed(l: Seq<u8>, k: int, x: u32) -> bool {
    exists|m: int| 0 <= m < k && x != 0 && #[trigger] dev::word(l, m * 4) == x
}

proof fn lemma_free_listed(d: DevV, g: Geo, l: Seq<u8>, k: int)
    requires
        whole(d, g),
        0 <= k <= 128,
        forall|m: int|
            0 <= m < 128 ==> (#[trigger] dev::word(l, m * 4)) == 0 || dev::word(l, m * 4) < g.nblocks,
    ensures
        map_only(d, disk::free_listed(d, g, l, k), g),
        forall|x: u32|
            x < g.nblocks ==> #[trigger] disk::taken(disk::free_listed(d, g, l, k), g, x) == (disk::taken(
                d,
                g,
                x,
            ) && !among_listed(l, k, x)),
    decreases k,
{
    if k > 0 {
        lemma_free_listed(d, g, l, k - 1);
        let e = disk::free_listed(d, g, l, k - 1);
        let f = disk::free_listed(d, g, l, k);
        let b = dev::word(l, (k - 1) * 4);
        if b != 0 {
            lemma_unmarked(e, g, b);
        }
        assert forall|x: u32| x < g.nblocks implies #[trigger] disk::taken(f, g, x) == (disk::taken(d, g, x)
            && !among_listed(l, k, x)) by {
            assert(disk::taken(e, g, x) == (disk::taken(d, g, x) && !among_listed(l, k - 1, x)));
            if among_listed(l, k, x) && !among_listed(l, k - 1, x) {
                let m = choose|m: int| 0 <= m < k && x != 0 && #[trigger] dev::word(l, m * 4) == x;
                assert(m == k - 1);
            }
            if x == b && b != 0 {
                assert(dev::word(l, (k - 1) * 4) == x);
            }
        }
        assert forall|p: int| !sound::is_map(g, p) implies #[trigger] f.at(p) == d.at(p) by {
            assert(e.at(p) == d.at(p));
        }
    }
}

/// The block is one of the inode's, or its list.
pub open spec fn has_block(d: DevV, g: Geo, i: u32, x: u32) -> bool {
    exists|k: int| x != 0 && #[trigger] sound::own(d, g, i, k) == x
}

/// Giving back all blocks of an inode frees these and changes nothing else.
#[verifier::spinoff_prover]
#[verifier::rlimit(40)]
proof fn lemma_freed(d: DevV, g: Geo, i: u32)
    requires
        sound::sound(d, g),
        disk::ino_at(d, g, i) is Some,
    ensures
        map_only(d, disk::freed(d, g, disk::ino_at(d, g, i)->0), g),
        forall|x: u32|
            x < g.nblocks ==> #[trigger] disk::taken(disk::freed(d, g, disk::ino_at(d, g, i)->0), g, x) == (
            disk::taken(d, g, x) && !has_block(d, g, i, x)),
{
    let r = disk::ino_at(d, g, i)->0;
    assert forall|m: int| 0 <= m < 8 implies (#[trigger] r.direct[m]) == 0 || r.direct[m] < g.nblocks by {
        assert(sound::own(d, g, i, m) == r.direct[m]);
    }
    lemma_free_direct(d, g, r, 8);
    let e = disk::free_direct(d, g, r, 8);
    let f = disk::freed(d, g, r);
    let l = d.at(r.indirect as int);
    if r.indirect != 0 {
        assert(sound::own(d, g, i, 136) == r.indirect);
        assert(sound::data_ok(d, g, r.indirect));
        assert(e.at(r.indirect as int) == l);
        assert forall|m: int| 0 <= m < 128 implies (#[trigger] dev::word(l, m * 4)) == 0 || dev::word(l, m * 4)
            < g.nblocks by {
            assert(sound::own(d, g, i, m + 8) == dev::word(l, m * 4));
        }
        lemma_free_listed(e, g, l, 128);
        lemma_unmarked(disk::free_listed(e, g, l, 128), g, r.indirect);
    }
    let h = disk::free_listed(e, g, l, 128);
    assert forall|x: u32| x < g.nblocks implies #[trigger] disk::taken(f, g, x) == (disk::taken(d, g, x)
        && !has_block(d, g, i, x)) by {
        assert(disk::taken(e, g, x) == (disk::taken(d, g, x) && !among_direct(r, 8, x)));
        if among_direct(r, 8, x) {
            let m = choose|m: int| 0 <= m < 8 && x != 0 && #[trigger] r.direct[m] == x;
            assert(sound::own(d, g, i, m) == x);
        }
        if r.indirect != 0 {
            assert(disk::taken(h, g, x) == (disk::taken(e, g, x) && !among_listed(l, 128, x)));
            if among_listed(l, 128, x) {
                let m = choose|m: int| 0 <= m < 128 && x != 0 && #[trigger] dev::word(l, m * 4) == x;
                assert(sound::own(d, g, i, m + 8) == x);
            }
            if x == r.indirect {
                assert(sound::own(d, g, i, 136) == x);
            }
        }
        if has_block(d, g, i, x) {
            let k = choose|k: int| x != 0 && #[trigger] sound::own(d, g, i, k) == x;
            if 0 <= k < 8 {
                assert(r.direct[k] == x);
            } else if 8 <= k < 136 {
                assert(dev::word(l, (k - 8) * 4) == x);
            }
        }
    }
    assert forall|p: int| !sound::is_map(g, p) implies #[trigger] f.at(p) == d.at(p) by {
        assert(e.at(p) == d.at(p));
        if r.indirect != 0 {
            assert(h.at(p) == e.at(p));
        }
    }
}

/// Inode `i` lost all its blocks, of which some may be free now; everything
/// else is as before.
#[verifier::spinoff_prover]
proof fn lemma_lost(d: DevV, h: DevV, g: Geo, i: u32)
    requires
        sound::sound(d, g),
        whole(h, g),
        h.secs.len() == d.secs.len(),
        forall|x: u32|
            x < g.nblocks ==> (#[trigger] disk::taken(h, g, x) ==> disk::taken(d, g, x)) && (disk::taken(
                d,
                g,
                x,
            ) && !disk::taken(h, g, x) ==> has_block(d, g, i, x)),
        forall|k: int| #[trigger] sound::own(h, g, i, k) == 0,
        forall|j: u32| j != i ==> #[trigger] disk::ino_at(h, g, j) == disk::ino_at(d, g, j),
        forall|l: int| !sound::is_meta(g, l) ==> #[trigger] h.at(l) == d.at(l),
    ensures
        sound::apart_from(d, h, g, i),
{
    assert forall|j: u32, k: int| j != i implies #[trigger] sound::own(h, g, j, k) == sound::own(d, g, j, k) by {
        assert(disk::ino_at(h, g, j) == disk::ino_at(d, g, j));
        if let Some(y) = disk::ino_at(d, g, j) {
            if y.indirect != 0 {
                assert(sound::own(d, g, j, 136) == y.indirect);
                assert(sound::data_ok(d, g, sound::own(d, g, j, 136)));
                assert(h.at(y.indirect as int) == d.at(y.indirect as int));
            }
        }
    }
    assert(sound::sound(h, g)) by {
        assert forall|x: u32| x < g.nblocks && !(#[trigger] disk::taken(h, g, x)) implies x != 0
            && !sound::is_meta(g, x as int) by {
            if disk::taken(d, g, x) {
                let k = choose|k: int| x != 0 && #[trigger] sound::own(d, g, i, k) == x;
                assert(sound::data_ok(d, g, sound::own(d, g, i, k)));
            }
        }
        assert forall|j: u32, k: int| (#[trigger] sound::own(h, g, j, k)) != 0 implies sound::data_ok(
            h,
            g,
            sound::own(h, g, j, k),
        ) by {
            let x = sound::own(d, g, j, k);
            assert(x == sound::own(h, g, j, k));
            assert(sound::data_ok(d, g, x));
            if has_block(d, g, i, x) {
                let m = choose|m: int| x != 0 && #[trigger] sound::own(d, g, i, m) == x;
                assert(sound::own(d, g, j, k) != sound::own(d, g, i, m));
            }
            assert(disk::taken(h, g, x));
        }
        assert forall|j: u32, k: int, m: u32, n: int|
            (j != m || k != n) && (#[trigger] sound::own(h, g, j, k)) != 0 implies sound::own(h, g, j, k)
            != #[trigger] sound::own(h, g, m, n) by {
            assert(j != i);
            assert(sound::own(d, g, j, k) == sound::own(h, g, j, k));
            if m != i {
                assert(sound::own(d, g, m, n) == sound::own(h, g, m, n));
            }
        }
    }
    assert forall|j: u32, k: int| j != i && sound::own(d, g, j, k) != 0 implies h.at(
        #[trigger] sound::own(d, g, j, k) as int,
    ) == d.at(sound::own(d, g, j, k) as int) by {
        assert(sound::data_ok(d, g, sound::own(d, g, j, k)));
    }
}

/// The inode table is the same where only the bitmap changed.
proof fn lemma_map_only_inodes(d: DevV, e: DevV, g: Geo)
    requires
        map_only(d, e, g),
    ensures
        forall|j: u32| #[trigger] disk::ino_at(e, g, j) == disk::ino_at(d, g, j),
        forall|l: int| sound::is_itab(g, l) ==> #[trigger] e.at(l) == d.at(l),
{
    assert forall|l: int| sound::is_itab(g, l) implies #[trigger] e.at(l) == d.at(l) by {
        assert(!(sound::is_map(g, l) && sound::is_itab(g, l)));
    }
    assert forall|j: u32| #[trigger] disk::ino_at(e, g, j) == disk::ino_at(d, g, j) by {
        if 1 <= j <= g.ninodes {
            assert(sound::is_itab(g, disk::ino_sector(g, j)));
        }
    }
}

/// An inode emptied, its blocks given back: it is empty, they are free, and
/// nobody else notices.
proof fn lemma_emptied(d: DevV, g: Geo, i: u32, kind: u8)
    requires
        sound::sound(d, g),
        disk::ino_at(d, g, i) is Some,
        disk::is_kind(kind),
    ensures
        ({
            let h = disk::ino_put(
                disk::freed(d, g, disk::ino_at(d, g, i)->0),
                g,
                i,
                disk::empty_ino(kind),
            );
            &&& sound::apart_from(d, h, g, i)
            &&& disk::ino_at(h, g, i) == Some(disk::empty_ino(kind))
            &&& forall|x: u32| x < g.nblocks && has_block(d, g, i, x) ==> !#[trigger] disk::taken(h, g, x)
        }),
{
    let f = disk::freed(d, g, disk::ino_at(d, g, i)->0);
    let h = disk::ino_put(f, g, i, disk::empty_ino(kind));
    lemma_freed(d, g, i);
    lemma_map_only_inodes(d, f, g);
    assert(sound::is_itab(g, disk::ino_sector(g, i)));
    assert(sound::is_meta(g, disk::ino_sector(g, i)));
    sound::lemma_ino_put(f, g, i, disk::empty_ino(kind));
    assert forall|l: int| #[trigger] sound::is_meta(g, l) implies h.has(l) by {
        assert(f.has(l));
    }
    assert forall|x: u32| x < g.nblocks implies #[trigger] disk::taken(h, g, x) == (disk::taken(d, g, x)
        && !has_block(d, g, i, x)) by {
        assert(sound::is_map(g, disk::map_sector(g, x)));
        assert(!sound::is_itab(g, disk::map_sector(g, x)));
        assert(disk::taken(f, g, x) == (disk::taken(d, g, x) && !has_block(d, g, i, x)));
    }
    assert forall|j: u32| j != i implies #[trigger] disk::ino_at(h, g, j) == disk::ino_at(d, g, j) by {
        assert(disk::ino_at(f, g, j) == disk::ino_at(d, g, j));
    }
    lemma_lost(d, h, g, i);
}

// ---- a path is a directory and a name ----

proof fn lemma_trimmed(p: Seq<u8>, n: int)
    requires
        0 <= n <= p.len(),
    ensures
        0 <= disk::trimmed(p, n) <= n,
        forall|j: int| disk::trimmed(p, n) <= j < n ==> p[j] == 0x2f,
        disk::trimmed(p, n) > 0 ==> p[disk::trimmed(p, n) - 1] != 0x2f,
    decreases n,
{
    if n > 0 && p[n - 1] == 0x2f {
        lemma_trimmed(p, n - 1);
    }
}

proof fn lemma_last_slash(p: Seq<u8>, n: int)
    requires
        0 <= n <= p.len(),
    ensures
        -1 <= disk::last_slash(p, n) < n || n == 0 && disk::last_slash(p, n) == -1,
        disk::last_slash(p, n) >= 0 ==> p[disk::last_slash(p, n)] == 0x2f,
        forall|j: int| disk::last_slash(p, n) < j < n ==> p[j] != 0x2f,
    decreases n,
{
    if n > 0 && p[n - 1] != 0x2f {
        lemma_last_slash(p, n - 1);
    }
}

/// The next slash is the first that there is.
proof fn lemma_slash_is(p: Seq<u8>, i: int, n: int)
    requires
        0 <= i <= n <= p.len(),
        n == p.len() || p[n] == 0x2f,
        forall|j: int| i <= j < n ==> p[j] != 0x2f,
    ensures
        disk::slash(p, i) == n,
    decreases n - i,
{
    if i < n {
        lemma_slash_is(p, i + 1, n);
    }
}

/// A path cut at a slash behind `i` has the same next slash, or ends there.
proof fn lemma_slash_cut(p: Seq<u8>, i: int, k: int)
    requires
        0 <= i <= k < p.len(),
        p[k] == 0x2f,
    ensures
        disk::slash(p, i) == disk::slash(p.take(k), i),
        i <= disk::slash(p, i) <= k,
    decreases k - i,
{
    if i < k && p[i] != 0x2f {
        lemma_slash_cut(p, i + 1, k);
    }
}

/// Walking a path is walking its front, up to a slash, and then its rest.
proof fn lemma_walk_cut(d: DevV, g: Geo, cur: u32, p: Seq<u8>, x: int, k: int)
    requires
        0 <= x <= k < p.len(),
        p[k] == 0x2f,
    ensures
        disk::walk_from(d, g, cur, p, x) == match disk::walk_from(d, g, cur, p.take(k), x) {
            Some(c) => disk::walk_from(d, g, c, p, k),
            None => None,
        },
    decreases k - x,
{
    if x < k {
        lemma_slash_cut(p, x, k);
        let e = disk::slash(p, x);
        if e == x {
            lemma_walk_cut(d, g, cur, p, x + 1, k);
        } else {
            assert(p.take(k).subrange(x, e) =~= p.subrange(x, e));
            if let Some(c) = disk::child(d, g, cur, p.subrange(x, e)) {
                if disk::ino_at(d, g, c) is Some {
                    lemma_walk_cut(d, g, c, p, e, k);
                }
            }
        }
    }
}

/// Slashes at the end lead nowhere else.
proof fn lemma_walk_slashes(d: DevV, g: Geo, cur: u32, p: Seq<u8>, x: int)
    requires
        0 <= x <= p.len(),
        forall|j: int| x <= j < p.len() ==> p[j] == 0x2f,
    ensures
        disk::walk_from(d, g, cur, p, x) == Some(cur),
    decreases p.len() - x,
{
    if x < p.len() {
        lemma_walk_slashes(d, g, cur, p, x + 1);
    }
}

/// What a name leads to, if that is there.
pub open spec fn entry(d: DevV, g: Geo, parent: u32, name: Seq<u8>) -> Option<u32> {
    match disk::child(d, g, parent, name) {
        Some(c) => if disk::ino_at(d, g, c) is Some {
            Some(c)
        } else {
            None
        },
        None => None,
    }
}

/// Index of the slash in front of a path's last name.
pub open spec fn cut(p: Seq<u8>) -> int {
    disk::last_slash(p, disk::trimmed(p, p.len() as int))
}

/// Name and place of a path's last name.
proof fn lemma_parts(d: DevV, g: Geo, p: Seq<u8>)
    requires
        disk::parent_name(d, g, p) is Some,
    ensures
        0 <= cut(p) < p.len(),
        p[0] == 0x2f,
        p[cut(p)] == 0x2f,
        disk::walk_from(d, g, g.root, p.take(cut(p)), 0) == Some((disk::parent_name(d, g, p)->0).0),
        (disk::parent_name(d, g, p)->0).1 == p.subrange(cut(p) + 1, disk::trimmed(p, p.len() as int)),
        cut(p) + 1 < disk::trimmed(p, p.len() as int) <= p.len(),
{
    let n = disk::trimmed(p, p.len() as int);
    lemma_trimmed(p, p.len() as int);
    lemma_last_slash(p, n);
    let k = cut(p);
    if k == 0 {
        assert(p.take(0).len() == 0);
    } else {
        assert(p.take(k)[0] == p[0]);
    }
}

/// From the directory on, a path leads to where its last name leads.
proof fn lemma_walk_last(d: DevV, g: Geo, parent: u32, p: Seq<u8>)
    requires
        0 <= cut(p) < p.len(),
        p[cut(p)] == 0x2f,
        cut(p) + 1 < disk::trimmed(p, p.len() as int),
    ensures
        disk::walk_from(d, g, parent, p, cut(p)) == entry(
            d,
            g,
            parent,
            p.subrange(cut(p) + 1, disk::trimmed(p, p.len() as int)),
        ),
{
    let n = disk::trimmed(p, p.len() as int);
    let k = cut(p);
    lemma_trimmed(p, p.len() as int);
    lemma_last_slash(p, n);
    assert(disk::slash(p, k) == k);
    assert(disk::walk_from(d, g, parent, p, k) == disk::walk_from(d, g, parent, p, k + 1));
    lemma_slash_is(p, k + 1, n);
    if let Some(c) = disk::child(d, g, parent, p.subrange(k + 1, n)) {
        lemma_walk_slashes(d, g, c, p, n);
    }
}

/// Where the front of a path leads to a directory, the path leads to where
/// that directory's entry leads.
proof fn lemma_walked_entry(d: DevV, e: DevV, g: Geo, p: Seq<u8>)
    requires
        disk::parent_name(d, g, p) is Some,
        disk::walk_from(e, g, g.root, p.take(cut(p)), 0) == Some((disk::parent_name(d, g, p)->0).0),
    ensures
        disk::walked(e, g, p) == entry(
            e,
            g,
            (disk::parent_name(d, g, p)->0).0,
            (disk::parent_name(d, g, p)->0).1,
        ),
{
    lemma_parts(d, g, p);
    lemma_walk_cut(e, g, g.root, p, 0, cut(p));
    lemma_walk_last(e, g, (disk::parent_name(d, g, p)->0).0, p);
}

// ---- places of a directory ----

/// Places a directory can have.
pub const PLACES: usize = 2176;

/// The bytes of place `m` of a directory, if it has its block.
pub open spec fn slot(d: DevV, r: InoV, m: int) -> Option<Seq<u8>> {
    match disk::dent_sector(d, r, m) {
        Some(b) => Some(d.at(b as int).subrange(disk::dent_off(m), disk::dent_off(m) + DENT)),
        None => None,
    }
}

/// The entry in a place.
pub open spec fn slot_dent(s: Seq<u8>) -> Option<(Seq<u8>, u32)> {
    if s[0] == 0 {
        None
    } else {
        Some((disk::name_at(s, 0), dev::word(s, NAME_LEN as int)))
    }
}

proof fn lemma_name_end(x: Seq<u8>, o: int, s: Seq<u8>, k: int)
    requires
        0 <= o,
        o + DENT <= x.len(),
        s == x.subrange(o, o + DENT),
        0 <= k <= NAME_LEN,
    ensures
        disk::name_end(x, o, k) == disk::name_end(s, 0, k),
        k <= disk::name_end(s, 0, k) <= NAME_LEN,
    decreases NAME_LEN - k,
{
    if k < NAME_LEN {
        assert(s[k] == x[o + k]);
        lemma_name_end(x, o, s, k + 1);
    }
}

/// An entry is what its place holds.
proof fn lemma_dent_slot(d: DevV, r: InoV, m: int)
    requires
        d.wf(),
        0 <= m,
    ensures
        disk::dent_at(d, r, m) == match slot(d, r, m) {
            Some(s) => slot_dent(s),
            None => None,
        },
{
    if let Some(b) = disk::dent_sector(d, r, m) {
        let x = d.at(b as int);
        let o = disk::dent_off(m);
        assert(x.len() == SECTOR);
        let s = x.subrange(o, o + DENT);
        lemma_name_end(x, o, s, 0);
        assert(disk::name_at(x, o) =~= disk::name_at(s, 0));
        assert(s[0] == x[o]);
        assert(s[28] == x[o + 28] && s[29] == x[o + 29] && s[30] == x[o + 30] && s[31] == x[o + 31]);
    }
}

/// Same places, same search.
proof fn lemma_find_slots(d: DevV, e: DevV, r: InoV, q: InoV, name: Seq<u8>, n: int)
    requires
        d.wf(),
        e.wf(),
        0 <= n,
        disk::dent_count(r) == disk::dent_count(q),
        forall|m: int| n <= m < disk::dent_count(r) ==> #[trigger] slot(e, q, m) == slot(d, r, m),
    ensures
        disk::find_dent(e, q, name, n) == disk::find_dent(d, r, name, n),
    decreases disk::dent_count(r) - n,
{
    if n < disk::dent_count(r) {
        assert(slot(e, q, n) == slot(d, r, n));
        lemma_dent_slot(d, r, n);
        lemma_dent_slot(e, q, n);
        lemma_find_slots(d, e, r, q, name, n + 1);
    }
}

/// Other directories keep their places.
proof fn lemma_slots_apart(d: DevV, e: DevV, g: Geo, i: u32, j: u32)
    requires
        sound::sound(d, g),
        sound::apart_from(d, e, g, i),
        j != i,
        disk::ino_at(d, g, j) is Some,
    ensures
        disk::ino_at(e, g, j) == disk::ino_at(d, g, j),
        forall|m: int| #[trigger]
            slot(e, disk::ino_at(d, g, j)->0, m) == slot(d, disk::ino_at(d, g, j)->0, m),
{
    let r = disk::ino_at(d, g, j)->0;
    assert forall|m: int| #[trigger] slot(e, r, m) == slot(d, r, m) by {
        let b = disk::dent_block(m);
        sound::lemma_block_own(d, r, b);
        sound::lemma_block_own(e, r, b);
        assert(sound::own(d, g, j, b as int) == sound::own_of(d, r, b as int));
        assert(sound::own(e, g, j, b as int) == sound::own_of(e, r, b as int));
        assert(sound::own(e, g, j, b as int) == sound::own(d, g, j, b as int));
        if sound::own(d, g, j, b as int) != 0 {
            assert(e.at(sound::own(d, g, j, b as int) as int) == d.at(
                sound::own(d, g, j, b as int) as int,
            ));
        }
    }
}

/// Writing one place of a directory changes that place alone.
#[verifier::spinoff_prover]
proof fn lemma_slot_put(d: DevV, g: Geo, i: u32, m: int, v: Seq<u8>)
    requires
        sound::sound(d, g),
        disk::ino_at(d, g, i) is Some,
        0 <= m < PLACES,
        disk::dent_sector(d, disk::ino_at(d, g, i)->0, m) is Some,
        v.len() == SECTOR,
        ({
            let b = disk::dent_sector(d, disk::ino_at(d, g, i)->0, m)->0;
            let o = disk::dent_off(m);
            forall|x: int| 0 <= x < SECTOR && !(o <= x < o + DENT) ==> v[x] == #[trigger] d.at(b as int)[x]
        }),
    ensures
        ({
            let r = disk::ino_at(d, g, i)->0;
            let e = d.put(disk::dent_sector(d, r, m)->0, v);
            &&& sound::apart_from(d, e, g, i)
            &&& sound::same_tree(d, e, g)
            &&& slot(e, r, m) == Some(v.subrange(disk::dent_off(m), disk::dent_off(m) + DENT))
            &&& forall|n: int|
                0 <= n < PLACES && n != m ==> #[trigger] slot(e, r, n) == slot(d, r, n)
        }),
{
    let r = disk::ino_at(d, g, i)->0;
    let k = disk::dent_block(m);
    let b = disk::dent_sector(d, r, m)->0;
    let e = d.put(b, v);
    sound::lemma_block_own(d, r, k);
    assert(sound::own(d, g, i, k as int) == sound::own_of(d, r, k as int));
    sound::lemma_data_put(d, g, i, k as int, v);
    assert(disk::ino_at(e, g, i) == Some(r));
    assert(sound::data_ok(d, g, b));
    assert(d.at(b as int).len() == SECTOR);
    assert forall|n: int| 0 <= n < PLACES implies #[trigger] disk::dent_sector(e, r, n) == disk::dent_sector(
        d,
        r,
        n,
    ) && (disk::dent_block(n) != k && disk::dent_sector(d, r, n) is Some ==> disk::dent_sector(d, r, n)->0
        != b) by {
        let kn = disk::dent_block(n);
        sound::lemma_block_own(d, r, kn);
        sound::lemma_block_own(e, r, kn);
        assert(sound::own(d, g, i, kn as int) == sound::own_of(d, r, kn as int));
        assert(sound::own(e, g, i, kn as int) == sound::own_of(e, r, kn as int));
        assert(sound::own(e, g, i, kn as int) == sound::own(d, g, i, kn as int));
    }
    assert(disk::dent_sector(e, r, m) == Some(b));
    assert forall|n: int| 0 <= n < PLACES && n != m implies #[trigger] slot(e, r, n) == slot(d, r, n) by {
        assert(disk::dent_sector(e, r, n) == disk::dent_sector(d, r, n));
        if let Some(y) = disk::dent_sector(d, r, n) {
            if disk::dent_block(n) == k {
                assert(y == b);
                assert(n / 16 == m / 16);
                assert(v.subrange(disk::dent_off(n), disk::dent_off(n) + DENT) =~= d.at(b as int).subrange(
                    disk::dent_off(n),
                    disk::dent_off(n) + DENT,
                ));
            }
        }
    }
}

/// Every empty place of a directory, and every place behind its last, is
/// blank.
pub open spec fn clean(d: DevV, r: InoV) -> bool {
    forall|m: int|
        0 <= m < PLACES && (#[trigger] slot(d, r, m) matches Some(s) && (m >= disk::dent_count(r) || s[0]
            == 0)) ==> forall|x: int| 0 <= x < NAME_LEN ==> (slot(d, r, m)->0)[x] == 0
}

/// A sound disk whose directories are clean.
pub open spec fn orderly(d: DevV, g: Geo) -> bool {
    &&& sound::sound(d, g)
    &&& forall|j: u32|
        (#[trigger] disk::ino_at(d, g, j)) matches Some(r) && r.kind == KIND_DIR ==> clean(
            d,
            disk::ino_at(d, g, j)->0,
        )
}

/// Same places, as clean as before.
proof fn lemma_clean_same(d: DevV, e: DevV, r: InoV)
    requires
        clean(d, r),
        forall|m: int| 0 <= m < PLACES ==> #[trigger] slot(e, r, m) == slot(d, r, m),
    ensures
        clean(e, r),
{
    assert forall|m: int|
        0 <= m < PLACES && (#[trigger] slot(e, r, m) matches Some(s) && (m >= disk::dent_count(r) || s[0]
            == 0)) implies forall|x: int| 0 <= x < NAME_LEN ==> (slot(e, r, m)->0)[x] == 0 by {
        assert(slot(e, r, m) == slot(d, r, m));
    }
}

// ---- removing ----

/// An inode given up: it is gone, and nobody else notices.
#[verifier::spinoff_prover]
#[verifier::rlimit(30)]
proof fn lemma_dropped(d: DevV, g: Geo, i: u32)
    requires
        sound::sound(d, g),
        disk::ino_at(d, g, i) is Some,
    ensures
        sound::apart_from(d, disk::dropped(d, g, i), g, i),
        disk::ino_at(disk::dropped(d, g, i), g, i) is None,
        disk::ino_free(disk::dropped(d, g, i), g, i),
{
    let r = disk::ino_at(d, g, i)->0;
    let f = if r.kind == KIND_FILE {
        disk::freed(d, g, r)
    } else {
        d
    };
    if r.kind == KIND_FILE {
        lemma_freed(d, g, i);
    }
    assert(map_only(d, f, g));
    lemma_map_only_inodes(d, f, g);
    let s = disk::ino_sector(g, i);
    let o = disk::ino_off(i);
    let h = disk::dropped(d, g, i);
    assert(sound::is_itab(g, s));
    assert(sound::is_meta(g, s));
    assert(f.has(s));
    let y = f.at(s);
    assert(y.len() == SECTOR);
    assert(h.at(s) == y.update(o, 0));
    assert(h.wf());
    assert forall|l: int| #[trigger] sound::is_meta(g, l) implies h.has(l) by {
        assert(f.has(l));
    }
    assert forall|j: u32| j != i implies #[trigger] disk::ino_at(h, g, j) == disk::ino_at(d, g, j) by {
        assert(disk::ino_at(f, g, j) == disk::ino_at(d, g, j));
        if 1 <= j <= g.ninodes && disk::ino_sector(g, j) == s {
            assert((j - 1) / 8 == (i - 1) / 8);
            let oj = disk::ino_off(j);
            assert(oj + 64 <= o || o + 64 <= oj);
            let u = y.update(o, 0);
            assert forall|x: int| oj <= x < oj + 64 implies u[x] == y[x] by {}
            assert(disk::ino_in(u, oj).direct =~= disk::ino_in(y, oj).direct);
            assert(disk::ino_in(u, oj) == disk::ino_in(y, oj));
        }
    }
    assert forall|x: u32| x < g.nblocks implies (#[trigger] disk::taken(h, g, x) ==> disk::taken(d, g, x)) && (
    disk::taken(d, g, x) && !disk::taken(h, g, x) ==> has_block(d, g, i, x)) by {
        assert(sound::is_map(g, disk::map_sector(g, x)));
        assert(!(sound::is_map(g, disk::map_sector(g, x)) && sound::is_itab(g, disk::map_sector(g, x))));
        assert(h.at(disk::map_sector(g, x)) == f.at(disk::map_sector(g, x)));
        assert(disk::taken(h, g, x) == disk::taken(f, g, x));
    }
    assert forall|l: int| !sound::is_meta(g, l) implies #[trigger] h.at(l) == d.at(l) by {
        assert(f.at(l) == d.at(l));
    }
    lemma_lost(d, h, g, i);
}

/// No entry from `n` on has the name.
proof fn lemma_none_found(d: DevV, r: InoV, name: Seq<u8>, n: int)
    requires
        0 <= n,
        forall|m: int|
            n <= m < disk::dent_count(r) ==> !(#[trigger] disk::dent_at(d, r, m) matches Some(e) && e.0
                == name),
    ensures
        disk::find_dent(d, r, name, n) is None,
    decreases disk::dent_count(r) - n,
{
    if n < disk::dent_count(r) {
        assert(!(disk::dent_at(d, r, n) matches Some(e) && e.0 == name));
        lemma_none_found(d, r, name, n + 1);
    }
}

/// What a search passed over.
proof fn lemma_find_first(d: DevV, r: InoV, name: Seq<u8>, n: int)
    requires
        0 <= n,
        disk::find_dent(d, r, name, n) is Some,
    ensures
        n <= disk::find_dent(d, r, name, n)->0 < disk::dent_count(r),
        disk::dent_sector(d, r, disk::find_dent(d, r, name, n)->0) is Some,
        disk::dent_at(d, r, disk::find_dent(d, r, name, n)->0) matches Some(e) && e.0 == name,
        forall|m: int|
            n <= m < disk::find_dent(d, r, name, n)->0 ==> !(#[trigger] disk::dent_at(d, r, m) matches Some(
                e,
            ) && e.0 == name),
    decreases disk::dent_count(r) - n,
{
    if !(disk::dent_at(d, r, n) matches Some(e) && e.0 == name) {
        lemma_find_first(d, r, name, n + 1);
    }
}

/// A place that does not have the name does not matter to a search for it.
proof fn lemma_find_skips(d: DevV, e: DevV, r: InoV, i: int, name: Seq<u8>, n: int)
    requires
        d.wf(),
        e.wf(),
        0 <= n,
        forall|m: int| 0 <= m < disk::dent_count(r) && m != i ==> #[trigger] slot(e, r, m) == slot(d, r, m),
        slot(e, r, i) is Some,
        slot(d, r, i) is Some,
        !(disk::dent_at(d, r, i) matches Some(x) && x.0 == name),
        !(disk::dent_at(e, r, i) matches Some(x) && x.0 == name),
    ensures
        disk::find_dent(e, r, name, n) == disk::find_dent(d, r, name, n),
    decreases disk::dent_count(r) - n,
{
    if n < disk::dent_count(r) {
        if n != i {
            assert(slot(e, r, n) == slot(d, r, n));
            lemma_dent_slot(d, r, n);
            lemma_dent_slot(e, r, n);
        }
        lemma_find_skips(d, e, r, i, name, n + 1);
    }
}

/// The directory without the entry.
#[verifier::spinoff_prover]
proof fn lemma_entry_cleared(d: DevV, g: Geo, p: u32, name: Seq<u8>)
    requires
        sound::sound(d, g),
        disk::ino_at(d, g, p) is Some,
        disk::find_dent(d, disk::ino_at(d, g, p)->0, name, 0) is Some,
    ensures
        ({
            let r = disk::ino_at(d, g, p)->0;
            let i = disk::find_dent(d, r, name, 0)->0;
            let b = disk::dent_sector(d, r, i)->0;
            let e = d.put(b, disk::dent_cleared(d.at(b as int), disk::dent_off(i)));
            &&& sound::apart_from(d, e, g, p)
            &&& sound::same_tree(d, e, g)
            &&& disk::dent_at(e, r, i) is None
            &&& slot(e, r, i) is Some
            &&& slot(d, r, i) is Some
            &&& 0 <= i < PLACES
            &&& forall|m: int| 0 <= m < PLACES && m != i ==> #[trigger] slot(e, r, m) == slot(d, r, m)
            &&& forall|m: int| m >= PLACES ==> (#[trigger] slot(e, r, m)) is None || m >= disk::dent_count(r)
            &&& forall|m: int| m >= PLACES ==> (#[trigger] slot(d, r, m)) is None || m >= disk::dent_count(r)
            &&& clean(d, r) ==> clean(e, r)
        }),
{
    let r = disk::ino_at(d, g, p)->0;
    lemma_find_first(d, r, name, 0);
    let i = disk::find_dent(d, r, name, 0)->0;
    let b = disk::dent_sector(d, r, i)->0;
    let o = disk::dent_off(i);
    sound::lemma_block_own(d, r, disk::dent_block(i));
    assert(i < PLACES);
    let v = disk::dent_cleared(d.at(b as int), o);
    let e = d.put(b, v);
    assert(d.at(b as int).len() == SECTOR);
    lemma_slot_put(d, g, p, i, v);
    assert(v[o] == 0);
    assert((slot(e, r, i)->0)[0] == 0);
    lemma_dent_slot(e, r, i);
    assert forall|m: int| m >= PLACES implies ((#[trigger] slot(e, r, m)) is None || m >= disk::dent_count(r)) by {
        sound::lemma_block_own(e, r, disk::dent_block(m));
    }
    assert forall|m: int| m >= PLACES implies ((#[trigger] slot(d, r, m)) is None || m >= disk::dent_count(r)) by {
        sound::lemma_block_own(d, r, disk::dent_block(m));
    }
    if clean(d, r) {
        assert forall|m: int|
            0 <= m < PLACES && (#[trigger] slot(e, r, m) matches Some(s) && (m >= disk::dent_count(r) || s[0]
                == 0)) implies forall|x: int| 0 <= x < NAME_LEN ==> (slot(e, r, m)->0)[x] == 0 by {
            if m != i {
                assert(slot(e, r, m) == slot(d, r, m));
            }
        }
    }
}

/// Nothing is behind a file.
proof fn lemma_walk_file(d: DevV, g: Geo, c: u32, p: Seq<u8>, x: int)
    requires
        disk::ino_at(d, g, c) matches Some(r) && r.kind == KIND_FILE,
        0 <= x,
    ensures
        disk::walk_from(d, g, c, p, x) matches Some(z) ==> z == c,
    decreases p.len() - x,
{
    if x < p.len() && disk::slash(p, x) == x {
        lemma_walk_file(d, g, c, p, x + 1);
    }
}

/// A way to a directory does not lead over a name of a file.
proof fn lemma_walk_avoids(d: DevV, h: DevV, g: Geo, c: u32, parent: u32, name: Seq<u8>, cur: u32, p: Seq<u8>, x: int)
    requires
        disk::ino_at(d, g, c) matches Some(r) && r.kind == KIND_FILE,
        disk::child(d, g, parent, name) == Some(c),
        forall|j: u32, nm: Seq<u8>|
            !(j == parent && nm == name) ==> #[trigger] disk::child(h, g, j, nm) == disk::child(d, g, j, nm),
        forall|j: u32| j != c ==> #[trigger] disk::ino_at(h, g, j) == disk::ino_at(d, g, j),
        disk::walk_from(d, g, cur, p, x) is Some,
        disk::walk_from(d, g, cur, p, x) != Some(c),
        0 <= x,
    ensures
        disk::walk_from(h, g, cur, p, x) == disk::walk_from(d, g, cur, p, x),
    decreases p.len() - x,
{
    if x < p.len() {
        let e = disk::slash(p, x);
        if e == x {
            lemma_walk_avoids(d, h, g, c, parent, name, cur, p, x + 1);
        } else {
            let nm = p.subrange(x, e);
            let y = disk::child(d, g, cur, nm)->0;
            if y == c {
                lemma_walk_file(d, g, c, p, e);
            }
            assert(disk::child(h, g, cur, nm) == disk::child(d, g, cur, nm));
            assert(disk::ino_at(h, g, y) == disk::ino_at(d, g, y));
            lemma_walk_avoids(d, h, g, c, parent, name, y, p, e);
        }
    }
}

/// The name stands once in the directory.
pub open spec fn stands_once(d: DevV, r: InoV, name: Seq<u8>) -> bool {
    forall|m: int|
        (disk::find_dent(d, r, name, 0) matches Some(i) && i < m < disk::dent_count(r)) ==> !(
        #[trigger] disk::dent_at(d, r, m) matches Some(e) && e.0 == name)
}

/// Removing a name that does not stand for its own directory leaves an orderly
/// disk where what it stood for is given up and all other inodes and names are
/// as before. If the name stood once, the directory does not have it any more,
/// and a file is no longer found at its path.
#[verifier::spinoff_prover]
#[verifier::rlimit(60)]
pub proof fn law_unlink_removes(d: DevV, g: Geo, path: Seq<u8>)
    requires
        orderly(d, g),
        disk::removed(d, g, path).1,
        ({
            let (parent, name) = disk::parent_name(d, g, path)->0;
            disk::child(d, g, parent, name) != Some(parent)
        }),
    ensures
        ({
            let (parent, name) = disk::parent_name(d, g, path)->0;
            let c = disk::child(d, g, parent, name)->0;
            let e = disk::removed(d, g, path).0;
            let once = stands_once(d, disk::ino_at(d, g, parent)->0, name);
            &&& orderly(e, g)
            &&& once ==> disk::child(e, g, parent, name) is None
            &&& disk::ino_at(e, g, c) is None
            &&& forall|j: u32| j != c ==> #[trigger] disk::ino_at(e, g, j) == disk::ino_at(d, g, j)
            &&& forall|j: u32, nm: Seq<u8>|
                j != c && !(j == parent && nm == name) ==> #[trigger] disk::child(e, g, j, nm) == disk::child(
                    d,
                    g,
                    j,
                    nm,
                )
            &&& once && (disk::ino_at(d, g, c) matches Some(r) && r.kind == KIND_FILE) ==> disk::walked(
                e,
                g,
                path,
            ) is None
        }),
{
    let (parent, name) = disk::parent_name(d, g, path)->0;
    let r = disk::ino_at(d, g, parent)->0;
    let i = disk::find_dent(d, r, name, 0)->0;
    let b = disk::dent_sector(d, r, i)->0;
    let c = (disk::dent_at(d, r, i)->0).1;
    let f = d.put(b, disk::dent_cleared(d.at(b as int), disk::dent_off(i)));
    let e = disk::removed(d, g, path).0;
    lemma_parts(d, g, path);
    lemma_find_first(d, r, name, 0);
    lemma_entry_cleared(d, g, parent, name);
    assert(disk::child(d, g, parent, name) == Some(c));
    assert(e == disk::dropped(f, g, c));
    assert(disk::ino_at(f, g, c) == disk::ino_at(d, g, c));
    if disk::ino_at(f, g, c) is Some {
        lemma_dropped(f, g, c);
    } else {
        assert(sound::apart_from(f, e, g, c));
    }
    assert forall|j: u32| j != c implies #[trigger] disk::ino_at(e, g, j) == disk::ino_at(d, g, j) by {
        assert(disk::ino_at(f, g, j) == disk::ino_at(d, g, j));
    }
    lemma_slots_apart(f, e, g, c, parent);
    lemma_removed_names(d, f, e, g, parent, name, c);
    assert(orderly(e, g)) by {
        assert forall|j: u32|
            (#[trigger] disk::ino_at(e, g, j)) matches Some(q) && q.kind == KIND_DIR implies clean(
            e,
            disk::ino_at(e, g, j)->0,
        ) by {
            let q = disk::ino_at(e, g, j)->0;
            assert(j != c);
            assert(disk::ino_at(d, g, j) == Some(q));
            assert(disk::ino_at(f, g, j) == Some(q));
            assert(clean(d, q));
            if j != parent {
                lemma_slots_apart(d, f, g, parent, j);
                lemma_clean_same(d, f, q);
            }
            lemma_slots_apart(f, e, g, c, j);
            lemma_clean_same(f, e, q);
        }
    }
    if disk::ino_at(d, g, c) matches Some(rc) && rc.kind == KIND_FILE {
        assert forall|j: u32, nm: Seq<u8>| !(j == parent && nm == name) implies #[trigger] disk::child(
            e,
            g,
            j,
            nm,
        ) == disk::child(d, g, j, nm) by {
            if j == c {
                assert(disk::child(d, g, c, nm) is None);
            }
        }
        lemma_walk_avoids(d, e, g, c, parent, name, g.root, path.take(cut(path)), 0);
        lemma_walked_entry(d, e, g, path);
    }
}

/// Names after one was cleared and its inode given up.
#[verifier::spinoff_prover]
proof fn lemma_removed_names(d: DevV, f: DevV, e: DevV, g: Geo, parent: u32, name: Seq<u8>, c: u32)
    requires
        sound::sound(d, g),
        disk::ino_at(d, g, parent) matches Some(r) && r.kind == KIND_DIR,
        disk::find_dent(d, disk::ino_at(d, g, parent)->0, name, 0) is Some,
        parent != c,
        ({
            let r = disk::ino_at(d, g, parent)->0;
            let i = disk::find_dent(d, r, name, 0)->0;
            let b = disk::dent_sector(d, r, i)->0;
            f == d.put(b, disk::dent_cleared(d.at(b as int), disk::dent_off(i)))
        }),
        sound::apart_from(f, e, g, c),
    ensures
        stands_once(d, disk::ino_at(d, g, parent)->0, name) ==> disk::child(e, g, parent, name) is None,
        forall|j: u32, nm: Seq<u8>|
            j != c && !(j == parent && nm == name) ==> #[trigger] disk::child(e, g, j, nm) == disk::child(
                d,
                g,
                j,
                nm,
            ),
{
    let r = disk::ino_at(d, g, parent)->0;
    let i = disk::find_dent(d, r, name, 0)->0;
    lemma_find_first(d, r, name, 0);
    lemma_entry_cleared(d, g, parent, name);
    assert(disk::ino_at(f, g, parent) == Some(r));
    assert(disk::ino_at(e, g, parent) == Some(r));
    assert forall|m: int| 0 <= m < disk::dent_count(r) && m != i implies #[trigger] slot(f, r, m) == slot(d, r, m) by {
        if m >= PLACES {
            assert(slot(f, r, m) is None);
            assert(slot(d, r, m) is None);
        }
    }
    if stands_once(d, r, name) {
        assert forall|m: int| 0 <= m < disk::dent_count(r) implies !(#[trigger] disk::dent_at(f, r, m) matches Some(
            x,
        ) && x.0 == name) by {
            if m != i {
                assert(slot(f, r, m) == slot(d, r, m));
                lemma_dent_slot(f, r, m);
                lemma_dent_slot(d, r, m);
                assert(disk::dent_at(f, r, m) == disk::dent_at(d, r, m));
            }
        }
        lemma_none_found(f, r, name, 0);
        sound::lemma_dents_same(f, e, g, c, parent, name, 0);
    }
    assert forall|j: u32, nm: Seq<u8>| j != c && !(j == parent && nm == name) implies #[trigger] disk::child(
        e,
        g,
        j,
        nm,
    ) == disk::child(d, g, j, nm) by {
        assert(disk::ino_at(f, g, j) == disk::ino_at(d, g, j));
        assert(disk::ino_at(e, g, j) == disk::ino_at(f, g, j));
        if let Some(q) = disk::ino_at(d, g, j) {
            sound::lemma_dents_same(f, e, g, c, j, nm, 0);
            sound::lemma_find_range(f, q, nm, 0);
            if j == parent {
                lemma_find_skips(d, f, r, i, nm, 0);
                if let Some(k) = disk::find_dent(d, r, nm, 0) {
                    lemma_find_first(d, r, nm, 0);
                    assert(k != i);
                    assert(slot(f, r, k) == slot(d, r, k));
                    lemma_dent_slot(d, r, k);
                    lemma_dent_slot(f, r, k);
                }
            } else {
                sound::lemma_dents_same(d, f, g, parent, j, nm, 0);
            }
        }
    }
}

// ---- making ----

proof fn lemma_first_ino(d: DevV, g: Geo, i: u32)
    requires
        i >= 1,
    ensures
        disk::first_ino(d, g, i) matches Some(c) ==> i <= c <= g.ninodes && disk::ino_free(d, g, c)
            && disk::ino_at(d, g, c) is None,
    decreases g.ninodes + 1 - i,
{
    if i <= g.ninodes && !disk::ino_free(d, g, i) && i < u32::MAX {
        lemma_first_ino(d, g, (i + 1) as u32);
    }
}

/// A free inode taken for something empty: nobody else notices.
#[verifier::spinoff_prover]
proof fn lemma_new_ino(d: DevV, g: Geo, kind: u8)
    requires
        sound::sound(d, g),
        disk::is_kind(kind),
        disk::new_ino(d, g, kind).1 is Some,
    ensures
        ({
            let (e, c) = disk::new_ino(d, g, kind);
            &&& sound::apart_from(d, e, g, c->0)
            &&& disk::ino_at(d, g, c->0) is None
            &&& disk::ino_at(e, g, c->0) == Some(disk::empty_ino(kind))
        }),
{
    let (e, oc) = disk::new_ino(d, g, kind);
    let c = oc->0;
    lemma_first_ino(d, g, 1);
    assert(sound::is_itab(g, disk::ino_sector(g, c)));
    assert(sound::is_meta(g, disk::ino_sector(g, c)));
    sound::lemma_ino_put(d, g, c, disk::empty_ino(kind));
    assert forall|j: u32, k: int| #[trigger] sound::own(e, g, j, k) == sound::own(d, g, j, k) by {
        if j != c {
            assert(disk::ino_at(e, g, j) == disk::ino_at(d, g, j));
            if let Some(y) = disk::ino_at(d, g, j) {
                if y.indirect != 0 {
                    assert(sound::own(d, g, j, 136) == y.indirect);
                    assert(sound::data_ok(d, g, sound::own(d, g, j, 136)));
                    assert(e.at(y.indirect as int) == d.at(y.indirect as int));
                }
            }
        }
    }
    assert forall|x: u32| x < g.nblocks implies #[trigger] disk::taken(e, g, x) == disk::taken(d, g, x) by {
        assert(sound::is_map(g, disk::map_sector(g, x)));
        assert(!(sound::is_map(g, disk::map_sector(g, x)) && sound::is_itab(g, disk::map_sector(g, x))));
    }
    sound::lemma_sound_same(d, e, g);
    assert forall|j: u32, k: int| j != c && sound::own(d, g, j, k) != 0 implies e.at(
        #[trigger] sound::own(d, g, j, k) as int,
    ) == d.at(sound::own(d, g, j, k) as int) by {
        assert(sound::data_ok(d, g, sound::own(d, g, j, k)));
    }
}

/// The first empty place: all before it hold entries.
proof fn lemma_empty_dent(d: DevV, r: InoV, n: int)
    requires
        0 <= n <= disk::dent_count(r),
        disk::empty_dent(d, r, n) is Some,
    ensures
        ({
            let i = disk::empty_dent(d, r, n)->0;
            &&& n <= i <= disk::dent_count(r)
            &&& forall|m: int|
                n <= m < i ==> disk::dent_sector(d, r, m) is Some && (#[trigger] disk::dent_at(d, r, m)) is Some
            &&& i < disk::dent_count(r) ==> disk::dent_sector(d, r, i) is Some && disk::dent_at(d, r, i) is None
        }),
    decreases disk::dent_count(r) - n,
{
    if n < disk::dent_count(r) && disk::dent_at(d, r, n) is Some {
        lemma_empty_dent(d, r, n + 1);
    }
}

/// A search that finds nothing went by no entry of the name.
proof fn lemma_not_before(d: DevV, r: InoV, name: Seq<u8>, n: int, i: int, m: int)
    requires
        0 <= n <= m < i <= disk::dent_count(r),
        disk::find_dent(d, r, name, n) is None,
        forall|x: int| n <= x < i ==> (#[trigger] disk::dent_at(d, r, x)) is Some,
    ensures
        !(disk::dent_at(d, r, m) matches Some(e) && e.0 == name),
    decreases m - n,
{
    assert(disk::dent_at(d, r, n) is Some);
    if n < m {
        lemma_not_before(d, r, name, n + 1, i, m);
    }
}

/// The bytes of a new entry in a blank place.
proof fn lemma_stored_entry(x: Seq<u8>, o: int, name: Seq<u8>, c: u32)
    requires
        x.len() == SECTOR,
        0 <= o,
        o + DENT <= SECTOR,
        0 < name.len() <= NAME_LEN,
        forall|k: int| 0 <= k < name.len() ==> name[k] != 0,
        forall|k: int| o <= k < o + NAME_LEN ==> x[k] == 0,
    ensures
        ({
            let v = disk::dent_stored(x, o, name, c);
            &&& v.len() == SECTOR
            &&& slot_dent(v.subrange(o, o + DENT)) == Some((name, c))
            &&& v[o] != 0
            &&& forall|k: int| 0 <= k < SECTOR && !(o <= k < o + DENT) ==> v[k] == #[trigger] x[k]
        }),
{
    let v = disk::dent_stored(x, o, name, c);
    let s = v.subrange(o, o + DENT);
    assert forall|k: int| 0 <= k < name.len() implies s[k] == name[k] by {}
    assert forall|k: int| name.len() <= k < NAME_LEN implies s[k] == 0 by {}
    lemma_end_is(s, name.len() as int, 0);
    assert(disk::name_at(s, 0) =~= name);
    dev::law_word_stored(disk::over(x, o, name), o + NAME_LEN, c, o + NAME_LEN);
    assert(s[28] == v[o + 28] && s[29] == v[o + 29] && s[30] == v[o + 30] && s[31] == v[o + 31]);
    assert(s[0] == name[0]);
}

proof fn lemma_end_is(s: Seq<u8>, n: int, k: int)
    requires
        s.len() == DENT,
        0 <= k <= n <= NAME_LEN,
        forall|x: int| 0 <= x < n ==> s[x] != 0,
        n < NAME_LEN ==> s[n] == 0,
    ensures
        disk::name_end(s, 0, k) == n,
    decreases n - k,
{
    if k < n {
        lemma_end_is(s, n, k + 1);
    }
}

/// How the places of a directory are after an entry was put in place `i`.
pub open spec fn placed(d: DevV, r: InoV, e: DevV, q: InoV, i: int, name: Seq<u8>, c: u32) -> bool {
    &&& q.kind == r.kind
    &&& 0 <= i < PLACES
    &&& i <= disk::dent_count(r)
    &&& disk::dent_count(q) == if i < disk::dent_count(r) {
        disk::dent_count(r)
    } else {
        i + 1
    }
    &&& forall|m: int| 0 <= m < disk::dent_count(r) && m != i ==> #[trigger] slot(e, q, m) == slot(d, r, m)
    &&& slot(e, q, i) matches Some(s) && slot_dent(s) == Some((name, c))
    &&& clean(e, q)
}

/// The new name is found, in its place.
proof fn lemma_find_placed(d: DevV, r: InoV, e: DevV, q: InoV, i: int, name: Seq<u8>, c: u32, n: int)
    requires
        d.wf(),
        e.wf(),
        placed(d, r, e, q, i, name, c),
        0 <= n <= i,
        forall|m: int|
            0 <= m < i ==> disk::dent_sector(d, r, m) is Some && !(#[trigger] disk::dent_at(d, r, m) matches Some(
                x,
            ) && x.0 == name),
    ensures
        disk::find_dent(e, q, name, n) == Some(i),
        disk::dent_at(e, q, i) == Some((name, c)),
    decreases i - n,
{
    lemma_dent_slot(e, q, i);
    if n < i {
        assert(slot(e, q, n) == slot(d, r, n));
        lemma_dent_slot(d, r, n);
        lemma_dent_slot(e, q, n);
        assert(!(disk::dent_at(d, r, n) matches Some(x) && x.0 == name));
        lemma_find_placed(d, r, e, q, i, name, c, n + 1);
    }
}

/// Other names are found where they were.
proof fn lemma_find_kept(d: DevV, r: InoV, e: DevV, q: InoV, i: int, name: Seq<u8>, c: u32, nm: Seq<u8>, n: int)
    requires
        d.wf(),
        e.wf(),
        placed(d, r, e, q, i, name, c),
        0 <= n,
        nm != name,
        i < disk::dent_count(r) ==> disk::dent_at(d, r, i) is None,
        disk::find_dent(d, r, nm, n) is Some,
    ensures
        disk::find_dent(e, q, nm, n) == disk::find_dent(d, r, nm, n),
        disk::dent_at(e, q, disk::find_dent(d, r, nm, n)->0) == disk::dent_at(
            d,
            r,
            disk::find_dent(d, r, nm, n)->0,
        ),
    decreases disk::dent_count(r) - n,
{
    if n != i {
        assert(slot(e, q, n) == slot(d, r, n));
    }
    lemma_dent_slot(d, r, n);
    lemma_dent_slot(e, q, n);
    if !(disk::dent_at(d, r, n) matches Some(x) && x.0 == nm) {
        lemma_find_kept(d, r, e, q, i, name, c, nm, n + 1);
    }
}

/// A name that an entry can hold: not empty, not too long, without a zero.
pub open spec fn name_ok(name: Seq<u8>) -> bool {
    0 < name.len() <= NAME_LEN && forall|k: int| 0 <= k < name.len() ==> name[k] != 0
}

/// An entry put in a blank place that the directory has.
#[verifier::spinoff_prover]
#[verifier::rlimit(30)]
proof fn lemma_put_entry(d: DevV, g: Geo, p: u32, i: int, name: Seq<u8>, c: u32)
    requires
        sound::sound(d, g),
        disk::ino_at(d, g, p) is Some,
        clean(d, disk::ino_at(d, g, p)->0),
        name_ok(name),
        0 <= i < PLACES,
        slot(d, disk::ino_at(d, g, p)->0, i) matches Some(s) && (i >= disk::dent_count(
            disk::ino_at(d, g, p)->0,
        ) || s[0] == 0),
    ensures
        ({
            let r = disk::ino_at(d, g, p)->0;
            let b = disk::dent_sector(d, r, i)->0;
            let e = d.put(b, disk::dent_stored(d.at(b as int), disk::dent_off(i), name, c));
            &&& sound::apart_from(d, e, g, p)
            &&& sound::same_tree(d, e, g)
            &&& slot(e, r, i) matches Some(s) && slot_dent(s) == Some((name, c)) && s[0] != 0
            &&& forall|m: int| 0 <= m < PLACES && m != i ==> #[trigger] slot(e, r, m) == slot(d, r, m)
        }),
{
    let r = disk::ino_at(d, g, p)->0;
    let b = disk::dent_sector(d, r, i)->0;
    let o = disk::dent_off(i);
    let x = d.at(b as int);
    assert(x.len() == SECTOR);
    let s = slot(d, r, i)->0;
    assert forall|k: int| o <= k < o + NAME_LEN implies x[k] == 0 by {
        assert(s[k - o] == x[k]);
    }
    lemma_stored_entry(x, o, name, c);
    lemma_slot_put(d, g, p, i, disk::dent_stored(x, o, name, c));
}

/// Places behind what a directory can have are no places.
proof fn lemma_no_place(d: DevV, r: InoV, m: int)
    requires
        PLACES <= m <= u32::MAX,
    ensures
        slot(d, r, m) is None,
{
    sound::lemma_block_own(d, r, disk::dent_block(m));
}

/// A directory with a block more has the places it had, and blank ones.
#[verifier::spinoff_prover]
#[verifier::rlimit(30)]
proof fn lemma_more_places(d: DevV, g: Geo, p: u32, idx: u32)
    requires
        sound::sound(d, g),
        disk::ino_at(d, g, p) is Some,
        clean(d, disk::ino_at(d, g, p)->0),
        disk::grown(d, g, p, disk::ino_at(d, g, p)->0, idx).2 is Some,
    ensures
        ({
            let r = disk::ino_at(d, g, p)->0;
            let (e, q, b) = disk::grown(d, g, p, r, idx);
            &&& sound::apart_from(d, e, g, p)
            &&& disk::ino_at(e, g, p) == Some(q)
            &&& q.kind == r.kind
            &&& q.size == r.size
            &&& idx < 136
            &&& disk::block_of(e, q, idx) == b
            &&& clean(e, q)
            &&& forall|m: int|
                0 <= m < PLACES && slot(d, r, m) is Some ==> #[trigger] slot(e, q, m) == slot(d, r, m)
            &&& forall|m: int|
                0 <= m < PLACES && slot(d, r, m) is None && disk::dent_block(m) != idx ==> (
                #[trigger] slot(e, q, m)) is None
        }),
{
    let r = disk::ino_at(d, g, p)->0;
    let (e, q, b) = disk::grown(d, g, p, r, idx);
    sound::lemma_grown(d, g, p, idx);
    sound::lemma_block_own(e, q, idx);
    assert(sound::own(e, g, p, idx as int) == sound::own_of(e, q, idx as int));
    assert forall|m: int| 0 <= m < PLACES implies {
        let k = disk::dent_block(m);
        &&& slot(d, r, m) is Some ==> #[trigger] slot(e, q, m) == slot(d, r, m)
        &&& slot(d, r, m) is None && k != idx ==> slot(e, q, m) is None
        &&& slot(d, r, m) is None && k == idx ==> slot(e, q, m) == Some(
            dev::zeros().subrange(disk::dent_off(m), disk::dent_off(m) + DENT),
        )
    } by {
        let k = disk::dent_block(m);
        sound::lemma_block_own(d, r, k);
        sound::lemma_block_own(e, q, k);
        assert(sound::own(d, g, p, k as int) == sound::own_of(d, r, k as int));
        assert(sound::own(e, g, p, k as int) == sound::own_of(e, q, k as int));
        if sound::own(d, g, p, k as int) != 0 {
            assert(e.at(sound::own(d, g, p, k as int) as int) == d.at(sound::own(d, g, p, k as int) as int));
        }
    }
    assert forall|m: int|
        0 <= m < PLACES && (#[trigger] slot(e, q, m) matches Some(s) && (m >= disk::dent_count(q) || s[0]
            == 0)) implies forall|x: int| 0 <= x < NAME_LEN ==> (slot(e, q, m)->0)[x] == 0 by {
        if slot(d, r, m) is Some {
            assert(slot(e, q, m) == slot(d, r, m));
        }
    }
}

/// A size change leaves the places.
#[verifier::spinoff_prover]
proof fn lemma_resized_places(d: DevV, g: Geo, p: u32, size: u32)
    requires
        sound::sound(d, g),
        disk::ino_at(d, g, p) is Some,
    ensures
        ({
            let r = disk::ino_at(d, g, p)->0;
            let q = InoV { size, ..r };
            let e = disk::ino_put(d, g, p, q);
            &&& sound::apart_from(d, e, g, p)
            &&& disk::ino_at(e, g, p) == Some(q)
            &&& forall|m: int| #[trigger] slot(e, q, m) == slot(d, r, m)
        }),
{
    let r = disk::ino_at(d, g, p)->0;
    let q = InoV { size, ..r };
    let e = disk::ino_put(d, g, p, q);
    sound::lemma_resized(d, g, p, size);
    let s = disk::ino_sector(g, p);
    assert(sound::is_itab(g, s));
    assert(sound::is_meta(g, s));
    sound::lemma_ino_put(d, g, p, q);
    assert forall|m: int| #[trigger] slot(e, q, m) == slot(d, r, m) by {
        let k = disk::dent_block(m);
        sound::lemma_block_own(d, r, k);
        sound::lemma_block_own(e, q, k);
        if r.indirect != 0 {
            assert(sound::own(d, g, p, 136) == r.indirect);
            assert(sound::data_ok(d, g, sound::own(d, g, p, 136)));
        }
        assert(sound::own(d, g, p, k as int) == sound::own_of(d, r, k as int));
        if sound::own(d, g, p, k as int) != 0 {
            assert(sound::data_ok(d, g, sound::own(d, g, p, k as int)));
        }
    }
}

/// What a new entry does to its directory, and that nobody else notices.
#[verifier::spinoff_prover]
#[verifier::rlimit(60)]
proof fn lemma_inserted(d: DevV, g: Geo, p: u32, name: Seq<u8>, c: u32)
    requires
        sound::sound(d, g),
        disk::ino_at(d, g, p) matches Some(r) && r.kind == KIND_DIR,
        clean(d, disk::ino_at(d, g, p)->0),
        name_ok(name),
        disk::inserted(d, g, p, name, c).1,
    ensures
        ({
            let r = disk::ino_at(d, g, p)->0;
            let e = disk::inserted(d, g, p, name, c).0;
            &&& sound::apart_from(d, e, g, p)
            &&& disk::ino_at(e, g, p) is Some
            &&& disk::empty_dent(d, r, 0) is Some
            &&& placed(d, r, e, disk::ino_at(e, g, p)->0, disk::empty_dent(d, r, 0)->0, name, c)
        }),
{
    let r = disk::ino_at(d, g, p)->0;
    let e = disk::inserted(d, g, p, name, c).0;
    let i = disk::empty_dent(d, r, 0)->0;
    lemma_empty_dent(d, r, 0);
    if i < disk::dent_count(r) {
        sound::lemma_block_own(d, r, disk::dent_block(i));
        lemma_dent_slot(d, r, i);
        assert(i < PLACES);
        lemma_put_entry(d, g, p, i, name, c);
        assert(disk::ino_at(e, g, p) == Some(r));
        assert forall|m: int| 0 <= m < disk::dent_count(r) && m != i implies #[trigger] slot(e, r, m) == slot(
            d,
            r,
            m,
        ) by {
            if m >= PLACES {
                lemma_no_place(d, r, m);
                lemma_no_place(e, r, m);
            }
        }
        assert forall|m: int|
            0 <= m < PLACES && (#[trigger] slot(e, r, m) matches Some(s) && (m >= disk::dent_count(r) || s[0]
                == 0)) implies forall|x: int| 0 <= x < NAME_LEN ==> (slot(e, r, m)->0)[x] == 0 by {
            assert(m != i);
            assert(slot(e, r, m) == slot(d, r, m));
        }
    } else {
        let idx = disk::dent_block(i);
        let (d1, q, ob) = disk::grown(d, g, p, r, idx);
        let b = ob->0;
        lemma_more_places(d, g, p, idx);
        assert(i < PLACES);
        assert(disk::dent_sector(d1, q, i) == Some(b));
        assert(slot(d1, q, i) is Some);
        lemma_put_entry(d1, g, p, i, name, c);
        let f = d1.put(b, disk::dent_stored(d1.at(b as int), disk::dent_off(i), name, c));
        assert(disk::ino_at(f, g, p) == Some(q));
        let size = (q.size + DENT) as u32;
        lemma_resized_places(f, g, p, size);
        let q2 = InoV { size, ..q };
        assert(disk::ino_at(e, g, p) == Some(q2));
        sound::lemma_apart_trans(d, d1, f, g, p);
        sound::lemma_apart_trans(d, f, e, g, p);
        assert(disk::dent_count(q2) == i + 1);
        assert forall|m: int| 0 <= m < disk::dent_count(r) && m != i implies #[trigger] slot(e, q2, m) == slot(
            d,
            r,
            m,
        ) by {
            assert(disk::dent_sector(d, r, m) is Some) by {
                assert(disk::dent_at(d, r, m) is Some);
            }
            assert(slot(d, r, m) is Some);
            assert(slot(d1, q, m) == slot(d, r, m));
            assert(slot(f, q, m) == slot(d1, q, m));
        }
        assert(slot(e, q2, i) == slot(f, q, i));
        assert forall|m: int|
            0 <= m < PLACES && (#[trigger] slot(e, q2, m) matches Some(s) && (m >= disk::dent_count(q2) || s[0]
                == 0)) implies forall|x: int| 0 <= x < NAME_LEN ==> (slot(e, q2, m)->0)[x] == 0 by {
            assert(slot(e, q2, m) == slot(f, q, m));
            assert(m != i);
            assert(slot(f, q, m) == slot(d1, q, m));
        }
    }
}

/// What could be reached before can be reached.
proof fn lemma_walk_kept(d: DevV, e: DevV, g: Geo, cur: u32, p: Seq<u8>, x: int)
    requires
        forall|j: u32, nm: Seq<u8>|
            (#[trigger] disk::child(d, g, j, nm)) is Some ==> disk::child(e, g, j, nm) == disk::child(d, g, j, nm),
        forall|j: u32| (#[trigger] disk::ino_at(d, g, j)) is Some ==> disk::ino_at(e, g, j) is Some,
        disk::walk_from(d, g, cur, p, x) is Some,
        0 <= x,
    ensures
        disk::walk_from(e, g, cur, p, x) == disk::walk_from(d, g, cur, p, x),
    decreases p.len() - x,
{
    if x < p.len() {
        let s = disk::slash(p, x);
        if s == x {
            lemma_walk_kept(d, e, g, cur, p, x + 1);
        } else {
            let nm = p.subrange(x, s);
            let y = disk::child(d, g, cur, nm)->0;
            assert(disk::child(e, g, cur, nm) == disk::child(d, g, cur, nm));
            assert(disk::ino_at(d, g, y) is Some);
            lemma_walk_kept(d, e, g, y, p, s);
        }
    }
}

/// Names after an entry was made: the new one leads to its inode, the others
/// where they led.
#[verifier::spinoff_prover]
#[verifier::rlimit(30)]
proof fn lemma_made_names(d: DevV, f: DevV, e: DevV, g: Geo, p: u32, name: Seq<u8>, c: u32)
    requires
        sound::sound(d, g),
        sound::apart_from(d, f, g, c),
        disk::ino_at(d, g, c) is None,
        disk::ino_at(f, g, c) matches Some(n) && n.size == 0,
        disk::ino_at(d, g, p) matches Some(r) && r.kind == KIND_DIR,
        clean(f, disk::ino_at(f, g, p)->0),
        name_ok(name),
        disk::child(d, g, p, name) is None,
        disk::inserted(f, g, p, name, c) == (e, true),
    ensures
        disk::child(e, g, p, name) == Some(c),
        forall|j: u32, nm: Seq<u8>|
            (#[trigger] disk::child(d, g, j, nm)) is Some ==> disk::child(e, g, j, nm) == disk::child(d, g, j, nm),
{
    assert(p != c);
    let r = disk::ino_at(d, g, p)->0;
    assert(disk::ino_at(f, g, p) == Some(r));
    lemma_inserted(f, g, p, name, c);
    let q = disk::ino_at(e, g, p)->0;
    let i = disk::empty_dent(f, r, 0)->0;
    lemma_empty_dent(f, r, 0);
    sound::lemma_dents_same(d, f, g, c, p, name, 0);
    assert(disk::find_dent(f, r, name, 0) is None);
    assert forall|m: int| 0 <= m < i implies disk::dent_sector(f, r, m) is Some && !(#[trigger] disk::dent_at(
        f,
        r,
        m,
    ) matches Some(x) && x.0 == name) by {
        lemma_not_before(f, r, name, 0, i, m);
    }
    lemma_find_placed(f, r, e, q, i, name, c, 0);
    assert forall|j: u32, nm: Seq<u8>| (#[trigger] disk::child(d, g, j, nm)) is Some implies disk::child(
        e,
        g,
        j,
        nm,
    ) == disk::child(d, g, j, nm) by {
        assert(j != c);
        let rj = disk::ino_at(d, g, j)->0;
        assert(disk::ino_at(f, g, j) == Some(rj));
        sound::lemma_dents_same(d, f, g, c, j, nm, 0);
        sound::lemma_find_range(d, rj, nm, 0);
        if j == p {
            assert(nm != name);
            lemma_find_kept(f, r, e, q, i, name, c, nm, 0);
        } else {
            sound::lemma_dents_same(f, e, g, p, j, nm, 0);
        }
    }
}

/// Making a file or a directory under a name that its directory does not have
/// leaves an orderly disk where the path leads to something new and empty of
/// that kind, every path that led somewhere leads there still, and no other
/// file or directory is touched but the one that has the new name.
#[verifier::spinoff_prover]
#[verifier::rlimit(60)]
pub proof fn law_create_then_found(d: DevV, g: Geo, path: Seq<u8>, kind: u8)
    requires
        orderly(d, g),
        disk::ino_at(d, g, g.root) is Some,
        disk::is_kind(kind),
        disk::made(d, g, path, kind).1,
        ({
            let (parent, name) = disk::parent_name(d, g, path)->0;
            &&& disk::child(d, g, parent, name) is None
            &&& forall|k: int| 0 <= k < name.len() ==> name[k] != 0
        }),
    ensures
        ({
            let (parent, name) = disk::parent_name(d, g, path)->0;
            let e = disk::made(d, g, path, kind).0;
            let c = disk::walked(e, g, path)->0;
            &&& orderly(e, g)
            &&& disk::walked(e, g, path) is Some
            &&& disk::ino_at(d, g, c) is None
            &&& disk::ino_at(e, g, c) == Some(disk::empty_ino(kind))
            &&& forall|p: Seq<u8>|
                (#[trigger] disk::walked(d, g, p)) is Some ==> disk::walked(e, g, p) == disk::walked(d, g, p)
            &&& forall|j: u32|
                j != c && j != parent ==> #[trigger] disk::ino_at(e, g, j) == disk::ino_at(d, g, j)
            &&& forall|j: u32, k: int|
                j != c && j != parent && sound::own(d, g, j, k) != 0 ==> e.at(
                    #[trigger] sound::own(d, g, j, k) as int,
                ) == d.at(sound::own(d, g, j, k) as int)
        }),
{
    let (parent, name) = disk::parent_name(d, g, path)->0;
    let (f, oc) = disk::new_ino(d, g, kind);
    let c = oc->0;
    let e = disk::made(d, g, path, kind).0;
    lemma_parts(d, g, path);
    lemma_new_ino(d, g, kind);
    assert(disk::inserted(f, g, parent, name, c) == (e, true));
    assert(disk::ino_at(f, g, parent) matches Some(r) && r.kind == KIND_DIR);
    lemma_walk_in_use(d, g, g.root, path.take(cut(path)), 0);
    assert(parent != c);
    assert(disk::ino_at(f, g, parent) == disk::ino_at(d, g, parent));
    let r = disk::ino_at(d, g, parent)->0;
    lemma_slots_apart(d, f, g, c, parent);
    lemma_clean_same(d, f, r);
    lemma_inserted(f, g, parent, name, c);
    lemma_made_names(d, f, e, g, parent, name, c);
    assert(disk::ino_at(e, g, c) == disk::ino_at(f, g, c));
    assert forall|j: u32| (#[trigger] disk::ino_at(d, g, j)) is Some implies disk::ino_at(e, g, j) is Some by {
        assert(disk::ino_at(f, g, j) == disk::ino_at(d, g, j));
        if j != parent {
            assert(disk::ino_at(e, g, j) == disk::ino_at(f, g, j));
        }
    }
    assert forall|p: Seq<u8>| (#[trigger] disk::walked(d, g, p)) is Some implies disk::walked(e, g, p)
        == disk::walked(d, g, p) by {
        lemma_walk_kept(d, e, g, g.root, p, 0);
    }
    lemma_walk_kept(d, e, g, g.root, path.take(cut(path)), 0);
    lemma_walked_entry(d, e, g, path);
    assert(disk::walked(e, g, path) == Some(c));
    assert forall|j: u32| j != c && j != parent implies #[trigger] disk::ino_at(e, g, j) == disk::ino_at(d, g, j) by {
        assert(disk::ino_at(f, g, j) == disk::ino_at(d, g, j));
    }
    assert forall|j: u32, k: int| j != c && j != parent && sound::own(d, g, j, k) != 0 implies e.at(
        #[trigger] sound::own(d, g, j, k) as int,
    ) == d.at(sound::own(d, g, j, k) as int) by {
        assert(sound::own(f, g, j, k) == sound::own(d, g, j, k));
        assert(e.at(sound::own(f, g, j, k) as int) == f.at(sound::own(f, g, j, k) as int));
    }
    assert(orderly(e, g)) by {
        assert forall|j: u32|
            (#[trigger] disk::ino_at(e, g, j)) matches Some(q) && q.kind == KIND_DIR implies clean(
            e,
            disk::ino_at(e, g, j)->0,
        ) by {
            let q = disk::ino_at(e, g, j)->0;
            if j == c {
                lemma_no_blocks(e, q);
            } else if j != parent {
                assert(disk::ino_at(f, g, j) == Some(q));
                assert(disk::ino_at(d, g, j) == Some(q));
                lemma_slots_apart(d, f, g, c, j);
                lemma_clean_same(d, f, q);
                lemma_slots_apart(f, e, g, parent, j);
                lemma_clean_same(f, e, q);
            }
        }
    }
}

/// Something empty has no places.
proof fn lemma_no_blocks(e: DevV, q: InoV)
    requires
        q.direct == Seq::new(8, |k: int| 0u32),
        q.indirect == 0,
    ensures
        clean(e, q),
{
    assert forall|m: int| 0 <= m < PLACES implies (#[trigger] slot(e, q, m)) is None by {
        sound::lemma_block_own(e, q, disk::dent_block(m));
    }
}

/// A way from an inode in use leads to one.
proof fn lemma_walk_in_use(d: DevV, g: Geo, cur: u32, p: Seq<u8>, x: int)
    requires
        disk::ino_at(d, g, cur) is Some,
        0 <= x,
    ensures
        disk::walk_from(d, g, cur, p, x) matches Some(z) ==> disk::ino_at(d, g, z) is Some,
    decreases p.len() - x,
{
    if x < p.len() {
        let s = disk::slash(p, x);
        if s == x {
            lemma_walk_in_use(d, g, cur, p, x + 1);
        } else if x < s <= p.len() {
            if let Some(y) = disk::child(d, g, cur, p.subrange(x, s)) {
                if disk::ino_at(d, g, y) is Some {
                    lemma_walk_in_use(d, g, y, p, s);
                }
            }
        }
    }
}

// ---- cutting and writing ----

/// Where only a file changed, directories are as clean as before.
proof fn lemma_file_changed(d: DevV, e: DevV, g: Geo, i: u32)
    requires
        orderly(d, g),
        sound::apart_from(d, e, g, i),
        disk::ino_at(e, g, i) matches Some(r) && r.kind == KIND_FILE,
    ensures
        orderly(e, g),
{
    assert forall|j: u32|
        (#[trigger] disk::ino_at(e, g, j)) matches Some(q) && q.kind == KIND_DIR implies clean(
        e,
        disk::ino_at(e, g, j)->0,
    ) by {
        let q = disk::ino_at(e, g, j)->0;
        assert(disk::ino_at(d, g, j) == Some(q));
        lemma_slots_apart(d, e, g, i, j);
        lemma_clean_same(d, e, q);
    }
}

/// Cutting a file leaves it where it was, empty, gives back every block it had,
/// and touches no other file.
pub proof fn law_truncate_empties(d: DevV, g: Geo, path: Seq<u8>)
    requires
        orderly(d, g),
        disk::file_at(d, g, path) is Some,
    ensures
        ({
            let (i, r) = disk::file_at(d, g, path)->0;
            let e = disk::ino_put(disk::freed(d, g, r), g, i, disk::empty_ino(KIND_FILE));
            &&& orderly(e, g)
            &&& disk::file_at(e, g, path) == Some((i, disk::empty_ino(KIND_FILE)))
            &&& sound::apart_from(d, e, g, i)
            &&& forall|x: u32| x < g.nblocks && has_block(d, g, i, x) ==> !#[trigger] disk::taken(e, g, x)
        }),
{
    let (i, r) = disk::file_at(d, g, path)->0;
    let e = disk::ino_put(disk::freed(d, g, r), g, i, disk::empty_ino(KIND_FILE));
    lemma_emptied(d, g, i, KIND_FILE);
    sound::lemma_walk_same(d, e, g, i, g.root, path, 0);
    lemma_file_changed(d, e, g, i);
}


/// A write to a file keeps the disk orderly.
pub proof fn law_write_keeps_order(d: DevV, g: Geo, path: Seq<u8>, off: int, buf: Seq<u8>)
    requires
        orderly(d, g),
        disk::file_at(d, g, path) is Some,
        0 <= off,
        off + buf.len() <= u32::MAX,
    ensures
        ({
            let (i, r) = disk::file_at(d, g, path)->0;
            orderly(disk::file_put(d, g, i, r, off, buf).0, g)
        }),
{
    let (i, r) = disk::file_at(d, g, path)->0;
    sound::law_write_then_read(d, g, path, off, buf);
    lemma_file_changed(d, disk::file_put(d, g, i, r, off, buf).0, g, i);
}

// ---- removing, then making ----

/// From a free inode downwards the search for one ends well.
proof fn lemma_ino_there(d: DevV, g: Geo, i: u32, c: u32)
    requires
        1 <= i <= c <= g.ninodes,
        disk::ino_free(d, g, c),
    ensures
        disk::first_ino(d, g, i) is Some,
    decreases c - i,
{
    if i < c && !disk::ino_free(d, g, i) {
        lemma_ino_there(d, g, (i + 1) as u32, c);
    }
}

/// No block is missing up to an entry that a search finds.
proof fn lemma_no_gap(d: DevV, r: InoV, name: Seq<u8>, n: int)
    requires
        disk::find_dent(d, r, name, n) is Some,
    ensures
        forall|m: int|
            n <= m <= disk::find_dent(d, r, name, n)->0 ==> (#[trigger] disk::dent_sector(d, r, m)) is Some,
    decreases disk::dent_count(r) - n,
{
    if !(disk::dent_at(d, r, n) matches Some(e) && e.0 == name) {
        lemma_no_gap(d, r, name, n + 1);
    }
}

/// An empty place with no gap before it is room for an entry.
proof fn lemma_empty_there(d: DevV, r: InoV, n: int, i: int)
    requires
        n <= i < disk::dent_count(r),
        disk::dent_at(d, r, i) is None,
        forall|m: int| n <= m <= i ==> (#[trigger] disk::dent_sector(d, r, m)) is Some,
    ensures
        disk::empty_dent(d, r, n) matches Some(k) && k <= i,
    decreases i - n,
{
    assert(disk::dent_sector(d, r, n) is Some);
    if disk::dent_at(d, r, n) is Some {
        lemma_empty_there(d, r, n + 1, i);
    }
}

/// After an entry is cleared and what it stood for given up, that inode is
/// free, and the place in the directory is room for an entry.
#[verifier::spinoff_prover]
proof fn lemma_room_left(d: DevV, g: Geo, parent: u32, name: Seq<u8>)
    requires
        sound::sound(d, g),
        disk::ino_at(d, g, parent) is Some,
        disk::find_dent(d, disk::ino_at(d, g, parent)->0, name, 0) is Some,
        ({
            let r = disk::ino_at(d, g, parent)->0;
            let c = (disk::dent_at(d, r, disk::find_dent(d, r, name, 0)->0)->0).1;
            c != parent && disk::ino_at(d, g, c) is Some
        }),
    ensures
        ({
            let r = disk::ino_at(d, g, parent)->0;
            let i = disk::find_dent(d, r, name, 0)->0;
            let b = disk::dent_sector(d, r, i)->0;
            let c = (disk::dent_at(d, r, i)->0).1;
            let e = disk::dropped(d.put(b, disk::dent_cleared(d.at(b as int), disk::dent_off(i))), g, c);
            &&& disk::ino_free(e, g, c)
            &&& 0 <= i < disk::dent_count(r)
            &&& disk::dent_at(e, r, i) is None
            &&& forall|m: int| 0 <= m <= i ==> (#[trigger] slot(e, r, m)) is Some
        }),
{
    let r = disk::ino_at(d, g, parent)->0;
    let i = disk::find_dent(d, r, name, 0)->0;
    let b = disk::dent_sector(d, r, i)->0;
    let c = (disk::dent_at(d, r, i)->0).1;
    let f = d.put(b, disk::dent_cleared(d.at(b as int), disk::dent_off(i)));
    let e = disk::dropped(f, g, c);
    lemma_find_first(d, r, name, 0);
    lemma_no_gap(d, r, name, 0);
    lemma_entry_cleared(d, g, parent, name);
    assert(disk::ino_at(f, g, c) == disk::ino_at(d, g, c));
    assert(disk::ino_at(f, g, parent) == Some(r));
    lemma_dropped(f, g, c);
    lemma_slots_apart(f, e, g, c, parent);
    assert forall|m: int| 0 <= m <= i implies (#[trigger] slot(e, r, m)) is Some by {
        assert(disk::dent_sector(d, r, m) is Some);
        assert(slot(d, r, m) is Some);
        assert(slot(e, r, m) == slot(f, r, m));
        if m != i {
            assert(slot(f, r, m) == slot(d, r, m));
        }
    }
    lemma_dent_slot(f, r, i);
    assert(slot(e, r, i) == slot(f, r, i));
    lemma_dent_slot(e, r, i);
}

/// The same blocks are free.
proof fn lemma_first_same(d: DevV, f: DevV, g: Geo, b: u32)
    requires
        g.wf(),
        forall|l: int| sound::is_map(g, l) ==> #[trigger] f.at(l) == d.at(l),
    ensures
        disk::first_free(f, g, b) == disk::first_free(d, g, b),
    decreases g.nblocks - b,
{
    if b < g.nblocks {
        assert(sound::is_map(g, disk::map_sector(g, b)));
        assert(f.at(disk::map_sector(g, b)) == d.at(disk::map_sector(g, b)));
        if disk::taken(d, g, b) && b + 1 <= u32::MAX {
            lemma_first_same(d, f, g, (b + 1) as u32);
        }
    }
}

/// Disks with the same bitmap give out the same block.
proof fn lemma_grabbed_same(d: DevV, f: DevV, g: Geo)
    requires
        sound::sound(d, g),
        sound::sound(f, g),
        forall|l: int| sound::is_map(g, l) ==> #[trigger] f.at(l) == d.at(l),
    ensures
        disk::grabbed(f, g).1 == disk::grabbed(d, g).1,
        forall|l: int|
            sound::is_map(g, l) ==> #[trigger] disk::grabbed(f, g).0.at(l) == disk::grabbed(d, g).0.at(l),
{
    lemma_first_same(d, f, g, 0);
    sound::lemma_grabbed(d, g);
    sound::lemma_grabbed(f, g);
    if let Some(b) = disk::first_free(d, g, 0) {
        let s = disk::map_sector(g, b);
        assert(sound::is_map(g, s) && sound::is_meta(g, s));
        assert(d.has(s) && f.has(s));
        assert(sound::data_ok(disk::grabbed(d, g).0, g, b));
        let v = d.at(s).update(disk::map_off(b), disk::bit_set(d.at(s)[disk::map_off(b)], (b % 8) as int));
        assert forall|l: int| sound::is_map(g, l) implies #[trigger] disk::grabbed(f, g).0.at(l)
            == disk::grabbed(d, g).0.at(l) by {
            assert(sound::is_meta(g, l));
            assert(l != b);
            assert(f.at(l) == d.at(l));
            assert(f.at(s) == d.at(s));
        }
    }
}

/// Disks with the same bitmap and the same list of blocks give a directory
/// another block or do not.
#[verifier::spinoff_prover]
proof fn lemma_grown_same(d: DevV, f: DevV, g: Geo, p: u32, idx: u32)
    requires
        sound::sound(d, g),
        sound::sound(f, g),
        forall|l: int| sound::is_map(g, l) ==> #[trigger] f.at(l) == d.at(l),
        disk::ino_at(d, g, p) is Some,
        disk::ino_at(f, g, p) == disk::ino_at(d, g, p),
        forall|k: int| #[trigger] sound::own(f, g, p, k) == sound::own(d, g, p, k),
    ensures
        ({
            let r = disk::ino_at(d, g, p)->0;
            disk::grown(f, g, p, r, idx).2 is Some == disk::grown(d, g, p, r, idx).2 is Some
        }),
{
    let r = disk::ino_at(d, g, p)->0;
    lemma_grabbed_same(d, f, g);
    if 8 <= idx < disk::MAX_BLOCKS {
        if r.indirect != 0 {
            assert(sound::own(f, g, p, idx as int) == sound::own(d, g, p, idx as int));
        } else if let Some(x) = disk::grabbed(d, g).1 {
            let (d1, r1, _) = disk::listed(d, g, p, r);
            let (f1, _, _) = disk::listed(f, g, p, r);
            let s = disk::ino_sector(g, p);
            sound::lemma_grabbed(d, g);
            sound::lemma_grabbed(f, g);
            assert(sound::is_itab(g, s) && sound::is_meta(g, s));
            let d0 = disk::grabbed(d, g).0.put(x, dev::zeros());
            let f0 = disk::grabbed(f, g).0.put(x, dev::zeros());
            assert(disk::grabbed(d, g).0.has(s) && disk::grabbed(f, g).0.has(s));
            assert(d0.wf() && f0.wf());
            sound::lemma_ino_put(d0, g, p, r1);
            sound::lemma_ino_put(f0, g, p, r1);
            assert(d1.at(x as int) == f1.at(x as int));
            assert forall|l: int| sound::is_map(g, l) implies #[trigger] f1.at(l) == d1.at(l) by {
                assert(sound::is_meta(g, l));
                assert(disk::grabbed(f, g).0.at(l) == disk::grabbed(d, g).0.at(l));
            }
            lemma_first_same(d1, f1, g, 0);
        }
    }
}

/// Same places, same room.
proof fn lemma_empty_same(d: DevV, e: DevV, r: InoV, n: int)
    requires
        d.wf(),
        e.wf(),
        0 <= n,
        forall|m: int| #[trigger] slot(e, r, m) == slot(d, r, m),
    ensures
        disk::empty_dent(e, r, n) == disk::empty_dent(d, r, n),
    decreases disk::dent_count(r) - n,
{
    if n < disk::dent_count(r) {
        assert(slot(e, r, n) == slot(d, r, n));
        lemma_dent_slot(d, r, n);
        lemma_dent_slot(e, r, n);
        lemma_empty_same(d, e, r, n + 1);
    }
}

/// A directory that can take another entry: it has an empty place, or the
/// block for one behind the last is there or can be had.
pub open spec fn has_room(d: DevV, g: Geo, p: u32) -> bool {
    match disk::ino_at(d, g, p) {
        Some(r) => r.kind == KIND_DIR && match disk::empty_dent(d, r, 0) {
            Some(i) => i < disk::dent_count(r) || disk::grown(d, g, p, r, disk::dent_block(i)).2 is Some,
            None => false,
        },
        None => false,
    }
}

/// Making a file or a directory succeeds just where its directory is there and
/// has room, and an inode is free.
#[verifier::spinoff_prover]
pub proof fn law_create_succeeds(d: DevV, g: Geo, path: Seq<u8>, kind: u8)
    requires
        sound::sound(d, g),
        disk::ino_at(d, g, g.root) is Some,
        disk::is_kind(kind),
    ensures
        disk::made(d, g, path, kind).1 <==> disk::first_ino(d, g, 1) is Some && (disk::parent_name(d, g, path) matches Some(
            (p, _),
        ) && has_room(d, g, p)),
{
    if let Some((p, name)) = disk::parent_name(d, g, path) {
        lemma_parts(d, g, path);
        lemma_walk_in_use(d, g, g.root, path.take(cut(path)), 0);
        if disk::first_ino(d, g, 1) is Some {
            let (f, oc) = disk::new_ino(d, g, kind);
            let c = oc->0;
            lemma_first_ino(d, g, 1);
            lemma_new_ino(d, g, kind);
            let r = disk::ino_at(d, g, p)->0;
            assert(p != c);
            lemma_slots_apart(d, f, g, c, p);
            lemma_empty_same(d, f, r, 0);
            let s = disk::ino_sector(g, c);
            assert(sound::is_itab(g, s) && sound::is_meta(g, s));
            sound::lemma_ino_put(d, g, c, disk::empty_ino(kind));
            assert forall|l: int| sound::is_map(g, l) implies #[trigger] f.at(l) == d.at(l) by {
                assert(!(sound::is_map(g, l) && sound::is_itab(g, l)));
            }
            assert forall|k: int| #[trigger] sound::own(f, g, p, k) == sound::own(d, g, p, k) by {}
            if let Some(i) = disk::empty_dent(d, r, 0) {
                lemma_grown_same(d, f, g, p, disk::dent_block(i));
            }
        }
    }
}

/// Removing a file and then making one under a name that is not there, or
/// under the name that was removed if it stood once, succeeds if the directory
/// of the new file has room; the one that the removed file stood in has. The
/// new file is found at its path and is empty.
#[verifier::spinoff_prover]
#[verifier::rlimit(60)]
pub proof fn law_unlink_then_create(d: DevV, g: Geo, a: Seq<u8>, b: Seq<u8>)
    requires
        orderly(d, g),
        disk::ino_at(d, g, g.root) is Some,
        disk::removed(d, g, a).1,
        disk::parent_name(d, g, b) is Some,
        ({
            let (parent, name) = disk::parent_name(d, g, a)->0;
            let (p, new) = disk::parent_name(d, g, b)->0;
            let c = disk::child(d, g, parent, name)->0;
            &&& disk::ino_at(d, g, c) matches Some(q) && q.kind == KIND_FILE
            &&& disk::child(d, g, p, new) is None || (p == parent && new == name && stands_once(
                d,
                disk::ino_at(d, g, parent)->0,
                name,
            ))
            &&& p == parent || has_room(disk::removed(d, g, a).0, g, p)
            &&& forall|k: int| 0 <= k < new.len() ==> new[k] != 0
        }),
    ensures
        ({
            let e = disk::removed(d, g, a).0;
            let (h, ok) = disk::made(e, g, b, KIND_FILE);
            &&& disk::walked(e, g, b) is None
            &&& ok
            &&& orderly(h, g)
            &&& disk::file_at(h, g, b) matches Some((i, q)) && disk::ino_at(e, g, i) is None && q.size == 0
                && disk::complete(h, q) && disk::content(h, q) == Seq::<u8>::empty()
        }),
{
    let (parent, name) = disk::parent_name(d, g, a)->0;
    let r = disk::ino_at(d, g, parent)->0;
    let c = disk::child(d, g, parent, name)->0;
    let (p, new) = disk::parent_name(d, g, b)->0;
    let i = disk::find_dent(d, r, name, 0)->0;
    let e = disk::removed(d, g, a).0;
    assert(r.kind == KIND_DIR);
    assert(c != parent);
    law_unlink_removes(d, g, a);
    lemma_room_left(d, g, parent, name);
    lemma_parts(d, g, b);
    assert forall|j: u32, nm: Seq<u8>| !(j == parent && nm == name) implies #[trigger] disk::child(e, g, j, nm)
        == disk::child(d, g, j, nm) by {
        if j == c {
            assert(disk::child(d, g, c, nm) is None);
        }
    }
    assert(disk::child(e, g, p, new) is None) by {
        if p == parent && new == name {
            assert(disk::child(d, g, p, new) == Some(c));
        }
    }
    assert(p != c);
    lemma_walk_avoids(d, e, g, c, parent, name, g.root, b.take(cut(b)), 0);
    assert(disk::parent_name(e, g, b) == Some((p, new))) by {
        let n = disk::trimmed(b, b.len() as int);
        if disk::last_slash(b, n) > 0 {
            assert(b.take(cut(b))[0] == b[0]);
        }
    }
    lemma_walked_entry(e, e, g, b);
    lemma_ino_there(e, g, 1, c);
    assert(g.root != c) by {
        if g.root == c {
            lemma_walk_file(d, g, c, b.take(cut(b)), 0);
        }
    }
    if p == parent {
        assert(disk::ino_at(e, g, parent) == Some(r));
        assert forall|m: int| 0 <= m <= i implies (#[trigger] disk::dent_sector(e, r, m)) is Some by {
            assert(slot(e, r, m) is Some);
        }
        lemma_empty_there(e, r, 0, i);
        assert(has_room(e, g, p));
    }
    law_create_succeeds(e, g, b, KIND_FILE);
    law_create_then_found(e, g, b, KIND_FILE);
    let h = disk::made(e, g, b, KIND_FILE).0;
    assert(disk::content(h, disk::empty_ino(KIND_FILE)) =~= Seq::<u8>::empty());
}

} // verus!
