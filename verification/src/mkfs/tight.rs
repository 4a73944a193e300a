//! Built images are orderly disks to the kernel: no block belongs to two files,
//! and directories are clean.
use crate::fs::dev;
use crate::fs::disk;
use crate::fs::names;
use crate::fs::sound;
use crate::mkfs::image;
use crate::mkfs::image::{Grow, BLOCK, JLBA, KIND_FILE, MAX_FILES, NBLOCKS, SIZE};
use crate::mkfs::laws;
use crate::mkfs::mount;
use vstd::prelude::*;

verus! {

// ---- who owns what ----

/// The list of an inode: a block that holds numbers of blocks.
pub open spec fn list_of(d: Seq<u8>, j: int) -> int {
    dev::word(d, image::ino_pos(j) + 40) as int
}

/// What an inode of the table says its block `k` is: its own eight, those of
/// its list, and, for 136, the list.
pub open spec fn raw(d: Seq<u8>, j: int, k: int) -> int {
    if !image::is_ino(d, j) {
        0
    } else if 0 <= k < 8 {
        dev::word(d, image::ino_pos(j) + 8 + 4 * k) as int
    } else if k == 136 {
        list_of(d, j)
    } else if 8 <= k < 136 && laws::first(d) <= list_of(d, j) < NBLOCKS {
        dev::word(d, list_of(d, j) * BLOCK + 4 * (k - 8)) as int
    } else {
        0
    }
}

/// A block for data, in use.
pub open spec fn in_use(d: Seq<u8>, x: int) -> bool {
    laws::first(d) <= x < JLBA && image::used(d, x)
}

/// Every block of a file is one for data, in use, and its alone.
pub open spec fn tight(d: Seq<u8>) -> bool {
    &&& image::wf(d)
    &&& forall|j: int, k: int| (#[trigger] raw(d, j, k)) != 0 ==> in_use(d, raw(d, j, k))
    &&& forall|j: int, k: int, m: int, n: int|
        (j != m || k != n) && (#[trigger] raw(d, j, k)) != 0 ==> raw(d, j, k) != #[trigger] raw(d, m, n)
}

/// In use, and nobody's yet.
pub open spec fn unowned(d: Seq<u8>, x: int) -> bool {
    in_use(d, x) && forall|j: int, k: int| #[trigger] raw(d, j, k) != x
}

/// What is in use stays in use.
pub open spec fn uses_more(d: Seq<u8>, e: Seq<u8>) -> bool {
    &&& image::wf(e)
    &&& image::ninodes(e) == image::ninodes(d)
    &&& forall|x: int| 0 <= x < NBLOCKS && image::used(d, x) ==> #[trigger] image::used(e, x)
}

/// One place of one inode may have got a block that was nobody's; others may
/// have lost theirs.
pub open spec fn one_more(d: Seq<u8>, e: Seq<u8>, i: int, kk: int, x: int) -> bool {
    forall|j: int, k: int|
        (#[trigger] raw(e, j, k)) == raw(d, j, k) || raw(e, j, k) == 0 || (j == i && k == kk && raw(e, j, k) == x)
}

proof fn lemma_step(d: Seq<u8>, e: Seq<u8>, i: int, kk: int, x: int)
    requires
        tight(d),
        uses_more(d, e),
        unowned(d, x),
        one_more(d, e, i, kk, x),
    ensures
        tight(e),
        forall|y: int| y != x && #[trigger] unowned(d, y) ==> unowned(e, y),
{
    assert forall|j: int, k: int| (#[trigger] raw(e, j, k)) != 0 implies in_use(e, raw(e, j, k)) by {
        if raw(e, j, k) == raw(d, j, k) {
            assert(in_use(d, raw(d, j, k)));
        }
    }
    assert forall|j: int, k: int, m: int, n: int|
        (j != m || k != n) && (#[trigger] raw(e, j, k)) != 0 implies raw(e, j, k) != #[trigger] raw(e, m, n) by {
        let a = raw(d, j, k);
        let b = raw(d, m, n);
    }
    assert forall|y: int| y != x && #[trigger] unowned(d, y) implies unowned(e, y) by {
        assert forall|j: int, k: int| #[trigger] raw(e, j, k) != y by {
            let a = raw(d, j, k);
        }
    }
}

/// Same words, as tight as before.
proof fn lemma_still(d: Seq<u8>, e: Seq<u8>)
    requires
        tight(d),
        uses_more(d, e),
        forall|j: int, k: int| #[trigger] raw(e, j, k) == raw(d, j, k),
    ensures
        tight(e),
        forall|y: int| #[trigger] unowned(d, y) ==> unowned(e, y),
{
    assert forall|j: int, k: int| (#[trigger] raw(e, j, k)) != 0 implies in_use(e, raw(e, j, k)) by {
        assert(in_use(d, raw(d, j, k)));
    }
    assert forall|j: int, k: int, m: int, n: int|
        (j != m || k != n) && (#[trigger] raw(e, j, k)) != 0 implies raw(e, j, k) != #[trigger] raw(e, m, n) by {
        let a = raw(d, j, k);
        let b = raw(d, m, n);
    }
    assert forall|y: int| #[trigger] unowned(d, y) implies unowned(e, y) by {
        assert forall|j: int, k: int| #[trigger] raw(e, j, k) != y by {
            let a = raw(d, j, k);
        }
    }
}

/// An inode and its list untouched: same blocks.
proof fn lemma_raw_same(d: Seq<u8>, e: Seq<u8>, j: int)
    requires
        image::wf(d),
        image::wf(e),
        image::ninodes(e) == image::ninodes(d),
        image::is_ino(d, j) ==> laws::same_bytes(d, e, image::ino_pos(j) + 8, 36),
        image::is_ino(d, j) && laws::first(d) <= list_of(d, j) < NBLOCKS ==> laws::same_block(d, e, list_of(d, j)),
    ensures
        forall|k: int| #[trigger] raw(e, j, k) == raw(d, j, k),
{
    if image::is_ino(d, j) {
        let io = image::ino_pos(j);
        laws::lemma_word_same(d, e, io + 40);
        let l = list_of(d, j);
        assert forall|k: int| #[trigger] raw(e, j, k) == raw(d, j, k) by {
            if 0 <= k < 8 {
                assert(laws::same_bytes(d, e, io + 8 + 4 * k, 4));
                laws::lemma_word_same(d, e, io + 8 + 4 * k);
            } else if 8 <= k < 136 && laws::first(d) <= l < NBLOCKS {
                assert(laws::same_bytes(d, e, l * BLOCK + 4 * (k - 8), 4));
                laws::lemma_word_same(d, e, l * BLOCK + 4 * (k - 8));
            }
        }
    }
}

// ---- what a builder does ----

/// A change within a block that is nobody's list, or of inode bytes that name
/// no block: same owners.
proof fn lemma_inside(d: Seq<u8>, e: Seq<u8>, b: int)
    requires
        tight(d),
        uses_more(d, e),
        laws::first(d) <= b < JLBA,
        forall|j: int| #[trigger] raw(d, j, 136) != b,
        forall|x: int|
            3 * BLOCK <= x < SIZE && !(b * BLOCK <= x < b * BLOCK + BLOCK) ==> #[trigger] e[x] == d[x],
    ensures
        tight(e),
        forall|j: int, k: int| #[trigger] raw(e, j, k) == raw(d, j, k),
        forall|y: int| #[trigger] unowned(d, y) ==> unowned(e, y),
{
    assert forall|j: int, k: int| #[trigger] raw(e, j, k) == raw(d, j, k) by {
        if image::is_ino(d, j) {
            image::lemma_ino_room(d, j);
            assert(image::ino_pos(1) == 1536);
            assert(raw(d, j, 136) != b);
        }
        lemma_raw_same(d, e, j);
    }
    lemma_still(d, e);
}

proof fn lemma_uses_same(d: Seq<u8>, e: Seq<u8>)
    requires
        image::wf(d),
        e.len() == SIZE,
        forall|x: int| 0 <= x < 3 * BLOCK ==> #[trigger] e[x] == d[x],
    ensures
        uses_more(d, e),
{
    assert(e[32] == d[32] && e[33] == d[33] && e[34] == d[34] && e[35] == d[35]);
    assert forall|x: int| 0 <= x < NBLOCKS implies #[trigger] image::used(e, x) == image::used(d, x) by {
        assert(e[BLOCK + x / 8] == d[BLOCK + x / 8]);
    }
    assert forall|x: int| 0 <= x < laws::first(d) implies #[trigger] image::used(e, x) by {
        assert(image::used(d, x));
    }
}

/// A block grabbed is nobody's.
#[verifier::spinoff_prover]
proof fn lemma_tight_grab(d: Seq<u8>)
    requires
        tight(d),
        image::grabbed(d) is Some,
    ensures
        ({
            let (e, b) = image::grabbed(d)->0;
            &&& tight(e)
            &&& e.len() == SIZE
            &&& image::ninodes(e) == image::ninodes(d)
            &&& unowned(e, b)
            &&& !unowned(d, b)
            &&& forall|j: int, k: int| #[trigger] raw(e, j, k) == raw(d, j, k)
            &&& forall|y: int| #[trigger] unowned(d, y) ==> unowned(e, y)
            &&& forall|x: int| b * BLOCK <= x < b * BLOCK + BLOCK ==> #[trigger] e[x] == 0
            &&& forall|x: int|
                3 * BLOCK <= x < SIZE && !(b * BLOCK <= x < b * BLOCK + BLOCK) ==> #[trigger] e[x] == d[x]
        }),
{
    let (e, b) = image::grabbed(d)->0;
    laws::lemma_grab(d);
    assert(e.len() == SIZE);
    assert(uses_more(d, e));
    assert forall|j: int, k: int| #[trigger] raw(d, j, k) != b by {
        assert(raw(d, j, k) != 0 ==> in_use(d, raw(d, j, k)));
    }
    lemma_inside(d, e, b);
    assert(image::used(e, b));
    assert forall|j: int, k: int| #[trigger] raw(e, j, k) != b by {
        assert(raw(e, j, k) == raw(d, j, k));
    }
}

/// Bytes or a word put into a block that is nobody's.
proof fn lemma_tight_inside(d: Seq<u8>, e: Seq<u8>, b: int)
    requires
        tight(d),
        unowned(d, b),
        e.len() == SIZE,
        forall|x: int| 0 <= x < SIZE && !(b * BLOCK <= x < b * BLOCK + BLOCK) ==> #[trigger] e[x] == d[x],
    ensures
        tight(e),
        image::ninodes(e) == image::ninodes(d),
        forall|j: int, k: int| #[trigger] raw(e, j, k) == raw(d, j, k),
        forall|y: int| #[trigger] unowned(d, y) ==> unowned(e, y),
{
    lemma_uses_same(d, e);
    lemma_inside(d, e, b);
}

/// Bytes of an inode that name no block.
#[verifier::spinoff_prover]
proof fn lemma_tight_plain(d: Seq<u8>, e: Seq<u8>, i: int)
    requires
        tight(d),
        image::is_ino(d, i),
        e.len() == SIZE,
        ({
            let io = image::ino_pos(i);
            forall|x: int|
                0 <= x < SIZE && !(io <= x < io + 8) && !(io + 44 <= x < io + 64) ==> #[trigger] e[x] == d[x]
        }),
    ensures
        tight(e),
        image::ninodes(e) == image::ninodes(d),
        forall|j: int, k: int| #[trigger] raw(e, j, k) == raw(d, j, k),
        forall|y: int| #[trigger] unowned(d, y) ==> unowned(e, y),
{
    image::lemma_ino_room(d, i);
    assert(image::ino_pos(1) == 1536);
    let io = image::ino_pos(i);
    assert forall|x: int| 0 <= x < 3 * BLOCK implies #[trigger] e[x] == d[x] by {}
    lemma_uses_same(d, e);
    assert forall|j: int, k: int| #[trigger] raw(e, j, k) == raw(d, j, k) by {
        if image::is_ino(d, j) {
            image::lemma_ino_room(d, j);
            let jo = image::ino_pos(j);
            assert(jo == io || jo + 64 <= io || io + 64 <= jo) by {
                assert(jo - io == (j - i) * 64);
            }
        }
        lemma_raw_same(d, e, j);
    }
    lemma_still(d, e);
}

/// A number of a block put into an inode, in one of its eight places.
#[verifier::spinoff_prover]
proof fn lemma_tight_direct(d: Seq<u8>, i: int, kk: int, b: int)
    requires
        tight(d),
        image::is_ino(d, i),
        0 <= kk < 8,
        unowned(d, b),
    ensures
        ({
            let e = dev::with_word(d, image::ino_pos(i) + 8 + 4 * kk, b as u32);
            &&& tight(e)
            &&& image::ninodes(e) == image::ninodes(d)
            &&& forall|y: int| y != b && #[trigger] unowned(d, y) ==> unowned(e, y)
            &&& raw(e, i, 136) == raw(d, i, 136)
        }),
{
    image::lemma_ino_room(d, i);
    assert(image::ino_pos(1) == 1536);
    let io = image::ino_pos(i);
    let o = io + 8 + 4 * kk;
    let e = dev::with_word(d, o, b as u32);
    assert forall|x: int| 0 <= x < SIZE && !(o <= x < o + 4) implies #[trigger] e[x] == d[x] by {}
    lemma_uses_same(d, e);
    assert forall|j: int, k: int| (#[trigger] raw(e, j, k)) == raw(d, j, k) || (j == i && k == kk && raw(e, j, k)
        == b) by {
        if j == i {
            dev::law_word_stored(d, o, b as u32, io + 40);
            let l = list_of(d, i);
            if 0 <= k < 8 {
                dev::law_word_stored(d, o, b as u32, io + 8 + 4 * k);
            } else if 8 <= k < 136 && laws::first(d) <= l < NBLOCKS {
                dev::law_word_stored(d, o, b as u32, l * BLOCK + 4 * (k - 8));
            }
        } else {
            if image::is_ino(d, j) {
                image::lemma_ino_room(d, j);
                let jo = image::ino_pos(j);
                assert(jo + 64 <= io || io + 64 <= jo) by {
                    assert(jo - io == (j - i) * 64);
                }
            }
            lemma_raw_same(d, e, j);
        }
    }
    lemma_step(d, e, i, kk, b);
}

/// A blank block made the list of an inode.
#[verifier::spinoff_prover]
proof fn lemma_tight_list(d: Seq<u8>, i: int, l: int)
    requires
        tight(d),
        image::is_ino(d, i),
        unowned(d, l),
        forall|x: int| l * BLOCK <= x < l * BLOCK + BLOCK ==> #[trigger] d[x] == 0,
    ensures
        ({
            let e = dev::with_word(d, image::ino_pos(i) + 40, l as u32);
            &&& tight(e)
            &&& image::ninodes(e) == image::ninodes(d)
            &&& forall|y: int| y != l && #[trigger] unowned(d, y) ==> unowned(e, y)
            &&& raw(e, i, 136) == l
        }),
{
    image::lemma_ino_room(d, i);
    assert(image::ino_pos(1) == 1536);
    let io = image::ino_pos(i);
    let o = io + 40;
    let e = dev::with_word(d, o, l as u32);
    assert forall|x: int| 0 <= x < SIZE && !(o <= x < o + 4) implies #[trigger] e[x] == d[x] by {}
    lemma_uses_same(d, e);
    dev::law_word_stored(d, o, l as u32, o);
    assert forall|j: int, k: int| (#[trigger] raw(e, j, k)) == raw(d, j, k) || raw(e, j, k) == 0 || (j == i && k
        == 136 && raw(e, j, k) == l) by {
        if j == i {
            if 0 <= k < 8 {
                dev::law_word_stored(d, o, l as u32, io + 8 + 4 * k);
            } else if 8 <= k < 136 {
                let p = l * BLOCK + 4 * (k - 8);
                dev::law_word_stored(d, o, l as u32, p);
                assert(d[p] == 0 && d[p + 1] == 0 && d[p + 2] == 0 && d[p + 3] == 0);
            }
        } else {
            if image::is_ino(d, j) {
                image::lemma_ino_room(d, j);
                let jo = image::ino_pos(j);
                assert(jo + 64 <= io || io + 64 <= jo) by {
                    assert(jo - io == (j - i) * 64);
                }
            }
            lemma_raw_same(d, e, j);
        }
    }
    lemma_step(d, e, i, 136, l);
}

/// A number of a block put into an inode's list.
#[verifier::spinoff_prover]
proof fn lemma_tight_listed(d: Seq<u8>, i: int, m: int, b: int)
    requires
        tight(d),
        image::is_ino(d, i),
        raw(d, i, 136) != 0,
        0 <= m < 128,
        unowned(d, b),
    ensures
        ({
            let e = dev::with_word(d, raw(d, i, 136) * BLOCK + 4 * m, b as u32);
            &&& tight(e)
            &&& image::ninodes(e) == image::ninodes(d)
            &&& forall|y: int| y != b && #[trigger] unowned(d, y) ==> unowned(e, y)
            &&& raw(e, i, 136) == raw(d, i, 136)
        }),
{
    let l = raw(d, i, 136);
    assert(in_use(d, l));
    let o = l * BLOCK + 4 * m;
    let e = dev::with_word(d, o, b as u32);
    assert forall|x: int| 0 <= x < SIZE && !(o <= x < o + 4) implies #[trigger] e[x] == d[x] by {}
    lemma_uses_same(d, e);
    image::lemma_ino_room(d, i);
    assert(image::ino_pos(1) == 1536);
    let io = image::ino_pos(i);
    assert forall|j: int, k: int| (#[trigger] raw(e, j, k)) == raw(d, j, k) || (j == i && k == m + 8 && raw(e, j, k)
        == b) by {
        if j == i {
            dev::law_word_stored(d, o, b as u32, io + 40);
            if 0 <= k < 8 {
                dev::law_word_stored(d, o, b as u32, io + 8 + 4 * k);
            } else if 8 <= k < 136 {
                dev::law_word_stored(d, o, b as u32, l * BLOCK + 4 * (k - 8));
            }
        } else {
            if image::is_ino(d, j) {
                image::lemma_ino_room(d, j);
                assert(raw(d, i, 136) != raw(d, j, 136));
            }
            lemma_raw_same(d, e, j);
        }
    }
    lemma_step(d, e, i, m + 8, b);
}

// ---- a file that grows ----

/// The lists that a list of lists names are nobody's in the table, nor it.
pub open spec fn deep_ok(d: Seq<u8>, t: int) -> bool {
    forall|m: int|
        0 <= m < 128 ==> (#[trigger] dev::word(d, t * BLOCK + 4 * m)) == 0 || (unowned(
            d,
            dev::word(d, t * BLOCK + 4 * m) as int,
        ) && dev::word(d, t * BLOCK + 4 * m) != t)
}

/// While a file grows: its list is its own, its list of lists nobody's.
pub open spec fn growing(g: Grow, i: int) -> bool {
    &&& tight(g.d)
    &&& image::is_ino(g.d, i)
    &&& g.ind != 0 ==> g.ind == raw(g.d, i, 136)
    &&& g.dind != 0 ==> unowned(g.d, g.dind) && deep_ok(g.d, g.dind)
}

/// The block is not part of the list of lists.
pub open spec fn apart_deep(g: Grow, b: int) -> bool {
    g.dind != 0 ==> b != g.dind && forall|m: int|
        0 <= m < 128 ==> #[trigger] dev::word(g.d, g.dind * BLOCK + 4 * m) != b
}

/// A change elsewhere keeps the list of lists.
proof fn lemma_deep_kept(d: Seq<u8>, e: Seq<u8>, t: int, b: int)
    requires
        d.len() == SIZE,
        e.len() == SIZE,
        laws::first(d) <= t < JLBA,
        image::wf(d),
        deep_ok(d, t),
        laws::same_block(d, e, t),
        forall|y: int| y != b && #[trigger] unowned(d, y) ==> unowned(e, y),
        forall|m: int| 0 <= m < 128 ==> #[trigger] dev::word(d, t * BLOCK + 4 * m) != b,
    ensures
        deep_ok(e, t),
        forall|m: int|
            0 <= m < 128 ==> #[trigger] dev::word(e, t * BLOCK + 4 * m) == dev::word(d, t * BLOCK + 4 * m),
{
    assert forall|m: int| 0 <= m < 128 implies #[trigger] dev::word(e, t * BLOCK + 4 * m) == dev::word(
        d,
        t * BLOCK + 4 * m,
    ) by {
        assert(laws::same_bytes(d, e, t * BLOCK + 4 * m, 4));
        laws::lemma_word_same(d, e, t * BLOCK + 4 * m);
    }
    assert forall|m: int| 0 <= m < 128 implies (#[trigger] dev::word(e, t * BLOCK + 4 * m)) == 0 || (unowned(
        e,
        dev::word(e, t * BLOCK + 4 * m) as int,
    ) && dev::word(e, t * BLOCK + 4 * m) != t) by {
        let w = dev::word(d, t * BLOCK + 4 * m);
        assert(w == dev::word(e, t * BLOCK + 4 * m));
        if w != 0 {
            assert(unowned(d, w as int));
        }
    }
}

/// One of the eight places.
#[verifier::spinoff_prover]
proof fn lemma_noted_own(g: Grow, i: int, k: int, b: int)
    requires
        growing(g, i),
        unowned(g.d, b),
        apart_deep(g, b),
        0 <= k < 8,
    ensures
        growing(image::noted(g, image::ino_pos(i), k, b)->0, i),
        image::ninodes((image::noted(g, image::ino_pos(i), k, b)->0).d) == image::ninodes(g.d),
{
    let io = image::ino_pos(i);
    image::lemma_ino_room(g.d, i);
    lemma_tight_direct(g.d, i, k, b);
    let e = dev::with_word(g.d, io + 8 + 4 * k, b as u32);
    if g.dind != 0 {
        assert(laws::same_block(g.d, e, g.dind));
        lemma_deep_kept(g.d, e, g.dind, b);
    }
}

/// A place in the list, which is made if need be.
#[verifier::spinoff_prover]
#[verifier::rlimit(40)]
proof fn lemma_noted_listed(g: Grow, i: int, k: int, b: int)
    requires
        growing(g, i),
        unowned(g.d, b),
        apart_deep(g, b),
        8 <= k < 136,
        image::noted(g, image::ino_pos(i), k, b) is Some,
    ensures
        growing(image::noted(g, image::ino_pos(i), k, b)->0, i),
        image::ninodes((image::noted(g, image::ino_pos(i), k, b)->0).d) == image::ninodes(g.d),
{
    let io = image::ino_pos(i);
    image::lemma_ino_room(g.d, i);
    let (d, ind) = image::with_list(g.d, g.ind, io + 40)->0;
    if g.ind == 0 {
        let (e, l) = image::grabbed(g.d)->0;
        lemma_tight_grab(g.d);
        assert(l != b);
        lemma_tight_list(e, i, l);
        assert(unowned(e, b));
        if g.dind != 0 {
            assert(unowned(e, g.dind));
            assert(l != g.dind);
            assert(laws::same_block(g.d, d, g.dind));
            assert forall|m: int| 0 <= m < 128 implies #[trigger] dev::word(g.d, g.dind * BLOCK + 4 * m) != l by {
                let w = dev::word(g.d, g.dind * BLOCK + 4 * m);
                if w == l {
                    assert(unowned(g.d, w as int));
                }
            }
            assert forall|y: int| y != l && #[trigger] unowned(g.d, y) implies unowned(d, y) by {
                assert(unowned(e, y));
            }
            lemma_deep_kept(g.d, d, g.dind, l);
        }
    }
    assert(tight(d) && unowned(d, b) && raw(d, i, 136) == ind && ind != 0);
    assert(in_use(d, ind));
    lemma_tight_listed(d, i, k - 8, b);
    let h = dev::with_word(d, ind * BLOCK + 4 * (k - 8), b as u32);
    if g.dind != 0 {
        assert(ind != g.dind);
        assert(laws::same_block(d, h, g.dind));
        assert forall|m: int| 0 <= m < 128 implies #[trigger] dev::word(d, g.dind * BLOCK + 4 * m) != b by {
            assert(dev::word(g.d, g.dind * BLOCK + 4 * m) != b);
            if g.ind == 0 {
                assert(laws::same_bytes(g.d, d, g.dind * BLOCK + 4 * m, 4));
                laws::lemma_word_same(g.d, d, g.dind * BLOCK + 4 * m);
            }
        }
        lemma_deep_kept(d, h, g.dind, b);
    }
}

/// The list of lists, made if need be.
#[verifier::spinoff_prover]
#[verifier::rlimit(40)]
proof fn lemma_have_deep(g: Grow, i: int, b: int)
    requires
        growing(g, i),
        unowned(g.d, b),
        apart_deep(g, b),
        image::with_list(g.d, g.dind, image::ino_pos(i) + 48) is Some,
    ensures
        ({
            let (d, t) = image::with_list(g.d, g.dind, image::ino_pos(i) + 48)->0;
            &&& growing(Grow { d, dind: t, ..g }, i)
            &&& image::ninodes(d) == image::ninodes(g.d)
            &&& unowned(d, b)
            &&& t != 0
            &&& apart_deep(Grow { d, dind: t, ..g }, b)
        }),
{
    let io = image::ino_pos(i);
    image::lemma_ino_room(g.d, i);
    if g.dind == 0 {
        let (e, t) = image::grabbed(g.d)->0;
        lemma_tight_grab(g.d);
        let d = dev::with_word(e, io + 48, t as u32);
        assert forall|x: int| 0 <= x < SIZE && !(io + 48 <= x < io + 52) implies #[trigger] d[x] == e[x] by {}
        lemma_tight_plain(e, d, i);
        assert(unowned(e, b));
        assert forall|m: int| 0 <= m < 128 implies (#[trigger] dev::word(d, t * BLOCK + 4 * m)) == 0 by {
            let p = t * BLOCK + 4 * m;
            assert(d[p] == 0 && d[p + 1] == 0 && d[p + 2] == 0 && d[p + 3] == 0);
        }
        assert(raw(d, i, 136) == raw(g.d, i, 136));
        assert(b != 0);
    }
}

/// A place in a list of the list of lists, both made if need be.
#[verifier::spinoff_prover]
#[verifier::rlimit(60)]
proof fn lemma_noted_deep(g: Grow, i: int, k: int, b: int)
    requires
        growing(g, i),
        unowned(g.d, b),
        apart_deep(g, b),
        136 <= k,
        image::noted(g, image::ino_pos(i), k, b) is Some,
    ensures
        growing(image::noted(g, image::ino_pos(i), k, b)->0, i),
        image::ninodes((image::noted(g, image::ino_pos(i), k, b)->0).d) == image::ninodes(g.d),
{
    let io = image::ino_pos(i);
    image::lemma_ino_room(g.d, i);
    let l1 = (k - 136) / 128;
    let l2 = (k - 136) % 128;
    lemma_have_deep(g, i, b);
    let (d, t) = image::with_list(g.d, g.dind, io + 48)->0;
    let o = t * BLOCK + 4 * l1;
    let have = dev::word(d, o) as int;
    let (e, l) = image::with_list(d, have, o)->0;
    if have == 0 {
        let (f, x) = image::grabbed(d)->0;
        lemma_tight_grab(d);
        assert(unowned(f, t) && x != t);
        assert forall|y: int| 0 <= y < SIZE && !(t * BLOCK <= y < t * BLOCK + BLOCK) implies #[trigger] e[y] == f[y] by {}
        lemma_tight_inside(f, e, t);
        assert(unowned(e, x) && unowned(e, t));
        assert forall|m: int| 0 <= m < 128 implies (#[trigger] dev::word(e, t * BLOCK + 4 * m)) == 0 || (unowned(
            e,
            dev::word(e, t * BLOCK + 4 * m) as int,
        ) && dev::word(e, t * BLOCK + 4 * m) != t) by {
            let p = t * BLOCK + 4 * m;
            dev::law_word_stored(f, o, x as u32, p);
            if m != l1 {
                assert(laws::same_bytes(d, f, p, 4));
                laws::lemma_word_same(d, f, p);
                let w = dev::word(d, p);
                assert(w == 0 || unowned(d, w as int) && w != t);
                if w != 0 {
                    assert(unowned(f, w as int));
                }
            }
        }
        assert(raw(e, i, 136) == raw(f, i, 136) && raw(f, i, 136) == raw(d, i, 136));
    }
    assert(growing(Grow { d: e, dind: t, ..g }, i));
    assert(unowned(e, l) && l != t);
    let h = dev::with_word(e, l * BLOCK + 4 * l2, b as u32);
    assert forall|y: int| 0 <= y < SIZE && !(l * BLOCK <= y < l * BLOCK + BLOCK) implies #[trigger] h[y] == e[y] by {}
    lemma_tight_inside(e, h, l);
    assert(laws::same_block(e, h, t));
    lemma_deep_kept(e, h, t, -1);
    assert(raw(h, i, 136) == raw(e, i, 136));
}

/// A file grows, and the image stays tight.
#[verifier::spinoff_prover]
#[verifier::rlimit(40)]
proof fn lemma_tight_grown(g: Grow, i: int, data: Seq<u8>, k: int)
    requires
        growing(g, i),
        0 <= k,
        image::grown(g, image::ino_pos(i), data, k) is Some,
    ensures
        tight(image::grown(g, image::ino_pos(i), data, k)->0),
        image::ninodes(image::grown(g, image::ino_pos(i), data, k)->0) == image::ninodes(g.d),
    decreases data.len() - k * BLOCK + BLOCK,
{
    let io = image::ino_pos(i);
    image::lemma_ino_room(g.d, i);
    if k * BLOCK >= data.len() {
        let e = dev::with_word(g.d, io + 4, data.len() as u32);
        assert forall|x: int| 0 <= x < SIZE && !(io + 4 <= x < io + 8) implies #[trigger] e[x] == g.d[x] by {}
        lemma_tight_plain(g.d, e, i);
    } else {
        let (d, b) = image::grabbed(g.d)->0;
        lemma_tight_grab(g.d);
        laws::lemma_piece_len(data, k);
        let p = image::put(d, b * BLOCK, image::piece(data, k));
        assert forall|x: int| 0 <= x < SIZE && !(b * BLOCK <= x < b * BLOCK + BLOCK) implies #[trigger] p[x] == d[x] by {}
        lemma_tight_inside(d, p, b);
        let h = Grow { d: p, ..g };
        assert(raw(p, i, 136) == raw(d, i, 136) && raw(d, i, 136) == raw(g.d, i, 136));
        if g.dind != 0 {
            assert(b != g.dind);
            assert(unowned(d, g.dind) && unowned(p, g.dind));
            assert(laws::same_block(g.d, p, g.dind));
            assert forall|m: int| 0 <= m < 128 implies #[trigger] dev::word(g.d, g.dind * BLOCK + 4 * m) != b by {
                let w = dev::word(g.d, g.dind * BLOCK + 4 * m);
                if w == b {
                    assert(unowned(g.d, w as int));
                }
            }
            assert forall|y: int| y != b && #[trigger] unowned(g.d, y) implies unowned(p, y) by {
                assert(unowned(d, y));
            }
            lemma_deep_kept(g.d, p, g.dind, b);
        }
        assert(growing(h, i));
        assert(apart_deep(h, b));
        if k < 8 {
            lemma_noted_own(h, i, k, b);
        } else if k < 136 {
            lemma_noted_listed(h, i, k, b);
        } else {
            lemma_noted_deep(h, i, k, b);
        }
        lemma_tight_grown(image::noted(h, io, k, b)->0, i, data, k + 1);
    }
}

// ---- a name ----

/// Where the search for an unused entry ended with one.
proof fn lemma_unused_block(d: Seq<u8>, i: int, x: int)
    requires
        0 <= x,
    ensures
        ({
            let e = image::unused(d, i, x);
            e < image::ent_count(d, i) && image::ent_ok(d, i, e) ==> x <= e && image::ent_block(d, i, e) != 0
        }),
    decreases image::ent_count(d, i) - x,
{
    if !(x >= image::ent_count(d, i) || !image::ent_ok(d, i, x) || (image::ent_block(d, i, x) != 0
        && d[image::ent_pos(d, i, x)] == 0)) {
        lemma_unused_block(d, i, x + 1);
    }
}

/// An entry written into a directory's block.
proof fn lemma_tight_entry(d: Seq<u8>, i: int, s: int, o: int, name: Seq<u8>, c: int)
    requires
        tight(d),
        image::is_ino(d, i),
        0 <= s < 8,
        raw(d, i, s) != 0,
        name.len() <= image::NAME_LEN,
        raw(d, i, s) * BLOCK <= o,
        o + 32 <= raw(d, i, s) * BLOCK + BLOCK,
    ensures
        tight(image::ent_put(d, o, name, c)),
        image::ninodes(image::ent_put(d, o, name, c)) == image::ninodes(d),
{
    let b = raw(d, i, s);
    assert(in_use(d, b));
    let e = image::ent_put(d, o, name, c);
    assert(e.len() == SIZE);
    assert forall|x: int| 0 <= x < SIZE && !(b * BLOCK <= x < b * BLOCK + BLOCK) implies #[trigger] e[x] == d[x] by {}
    lemma_uses_same(d, e);
    assert forall|j: int| #[trigger] raw(d, j, 136) != b by {
        assert(raw(d, i, s) != raw(d, j, 136));
    }
    lemma_inside(d, e, b);
}

/// A name entered into a directory keeps the image tight.
#[verifier::spinoff_prover]
#[verifier::rlimit(40)]
proof fn lemma_tight_entered(d: Seq<u8>, i: int, name: Seq<u8>, c: int)
    requires
        tight(d),
        image::is_ino(d, i),
        name.len() <= image::NAME_LEN,
        image::entered(d, i, name, c) is Some,
    ensures
        tight(image::entered(d, i, name, c)->0),
        image::ninodes(image::entered(d, i, name, c)->0) == image::ninodes(d),
{
    let n = image::ent_count(d, i);
    let u = image::unused(d, i, 0);
    let io = image::ino_pos(i);
    image::lemma_ino_room(d, i);
    lemma_unused_block(d, i, 0);
    if u < n {
        let s = u / 16;
        assert(image::ent_block(d, i, u) == raw(d, i, s));
        lemma_tight_entry(d, i, s, image::ent_pos(d, i, u), name, c);
    } else {
        let (f, b) = image::grabbed(d)->0;
        let s = n / 16;
        lemma_tight_grab(d);
        lemma_tight_direct(f, i, s, b);
        let f1 = dev::with_word(f, io + 8 + 4 * s, b as u32);
        dev::law_word_stored(f, io + 8 + 4 * s, b as u32, io + 8 + 4 * s);
        assert(raw(f1, i, s) == b);
        let f2 = dev::with_word(f1, io + 4, (n * 32 + BLOCK) as u32);
        assert forall|x: int| 0 <= x < SIZE && !(io + 4 <= x < io + 8) implies #[trigger] f2[x] == f1[x] by {}
        lemma_tight_plain(f1, f2, i);
        assert(raw(f2, i, s) == b);
        lemma_tight_entry(f2, i, s, b * BLOCK + n % 16 * 32, name, c);
    }
}

/// Adding a file, of any length, keeps every block in use with one owner at
/// most.
#[verifier::spinoff_prover]
pub proof fn law_add_keeps_tight(d: Seq<u8>, parent: int, name: Seq<u8>, data: Seq<u8>)
    requires
        tight(d),
        image::is_ino(d, parent),
        name.len() <= image::NAME_LEN,
        image::added(d, parent, name, data) is Some,
    ensures
        tight(image::added(d, parent, name, data)->0),
        image::ninodes(image::added(d, parent, name, data)->0) == image::ninodes(d),
{
    let i = image::first_ino(d, 1)->0;
    laws::lemma_first_ino(d, 1);
    image::lemma_ino_room(d, i);
    let io = image::ino_pos(i);
    let d1 = image::ino_set(d, i, KIND_FILE, 0);
    assert forall|x: int| 0 <= x < SIZE && !(io <= x < io + 8) && !(io + 44 <= x < io + 64) implies #[trigger] d1[x]
        == d[x] by {}
    lemma_tight_plain(d, d1, i);
    lemma_tight_grown(image::start(d1), i, data, 0);
    let e = image::grown(image::start(d1), io, data, 0)->0;
    lemma_tight_entered(e, parent, name, i);
}

// ---- what that means to the kernel ----

/// The kernel's view of who owns what is the image's, of inodes in use.
#[verifier::spinoff_prover]
proof fn lemma_own(d: Seq<u8>, j: u32, k: int)
    requires
        tight(d),
    ensures
        ({
            let o = sound::own(mount::disk_of(d), mount::geo(d), j, k) as int;
            o == 0 || o == raw(d, j as int, k)
        }),
{
    let q = mount::disk_of(d);
    let g = mount::geo(d);
    if let Some(r) = disk::ino_at(q, g, j) {
        let io = image::ino_pos(j as int);
        image::lemma_ino_room(d, j as int);
        mount::lemma_ino_words(d, j);
        if 8 <= k < 136 && r.indirect != 0 {
            let l = list_of(d, j as int);
            assert(raw(d, j as int, 136) == l);
            assert(in_use(d, l));
            mount::lemma_word_at(d, l, (k - 8) * 4);
        }
    }
}

/// To the kernel a tight image is a sound disk.
#[verifier::spinoff_prover]
#[verifier::rlimit(40)]
pub proof fn law_tight_is_sound(d: Seq<u8>)
    requires
        tight(d),
    ensures
        sound::sound(mount::disk_of(d), mount::geo(d)),
{
    let q = mount::disk_of(d);
    let g = mount::geo(d);
    assert(q.wf()) by {
        assert forall|i: int| 0 <= i < q.secs.len() implies (#[trigger] q.secs[i]).len() == 512 by {
            mount::lemma_at(d, i);
        }
    }
    assert forall|x: u32| x < g.nblocks implies #[trigger] disk::taken(q, g, x) == image::used(d, x as int) by {
        mount::lemma_taken(d, x);
    }
    assert forall|x: u32| x < g.nblocks && !(#[trigger] disk::taken(q, g, x)) implies x != 0 && !sound::is_meta(
        g,
        x as int,
    ) by {
        if x < laws::first(d) {
            assert(image::used(d, x as int));
        }
    }
    assert forall|i: u32, k: int| (#[trigger] sound::own(q, g, i, k)) != 0 implies sound::data_ok(
        q,
        g,
        sound::own(q, g, i, k),
    ) by {
        lemma_own(d, i, k);
        let b = raw(d, i as int, k);
        assert(in_use(d, b));
        assert(disk::taken(q, g, b as u32) == image::used(d, b));
    }
    assert forall|i: u32, k: int, j: u32, m: int|
        (i != j || k != m) && (#[trigger] sound::own(q, g, i, k)) != 0 implies sound::own(q, g, i, k)
        != #[trigger] sound::own(q, g, j, m) by {
        lemma_own(d, i, k);
        lemma_own(d, j, m);
        assert(raw(d, i as int, k) != raw(d, j as int, m));
    }
}

/// An empty image is tight, so what is built from it is.
#[verifier::spinoff_prover]
#[verifier::rlimit(40)]
pub proof fn law_fresh_tight(nfiles: int)
    requires
        0 <= nfiles <= MAX_FILES,
    ensures
        tight(image::fresh(nfiles)),
{
    let n = image::inodes_for(nfiles);
    let r = image::reserved(n);
    image::lemma_reserved(n);
    assert(image::ino_pos(1) == 1536);
    assert forall|j: int, k: int| #[trigger] raw(r, j, k) == 0 by {
        if image::is_ino(r, j) {
            image::lemma_ino_room(r, j);
            let io = image::ino_pos(j);
            lemma_zeros(r, io + 40);
            if 0 <= k < 8 {
                lemma_zeros(r, io + 8 + 4 * k);
            }
        }
    }
    assert(tight(r));
    let d1 = image::ino_set(r, 1, image::KIND_DIR, 0);
    image::lemma_ino_set(r, 1, image::KIND_DIR, 0);
    lemma_tight_plain(r, d1, 1);
    let d2 = image::ino_set(d1, 2, image::KIND_DIR, 0);
    image::lemma_ino_set(d1, 2, image::KIND_DIR, 0);
    lemma_tight_plain(d1, d2, 2);
    image::lemma_empty_root(d2, n);
    lemma_tight_entered(d2, 1, image::bin_name(), 2);
}

proof fn lemma_zeros(d: Seq<u8>, o: int)
    requires
        d.len() == SIZE,
        3 * BLOCK <= o,
        o + 4 <= SIZE,
        forall|x: int| 3 * BLOCK <= x < SIZE ==> #[trigger] d[x] == 0,
    ensures
        dev::word(d, o) == 0,
{
    assert(d[o] == 0 && d[o + 1] == 0 && d[o + 2] == 0 && d[o + 3] == 0);
}

// ---- directories ----

/// Every directory is in order and has no block behind its entries.
pub open spec fn plain_dirs(d: Seq<u8>) -> bool {
    forall|j: int| #[trigger]
        image::is_ino(d, j) && image::kind_of(d, j) == image::KIND_DIR ==> laws::tidy(d, j) && no_more(d, j)
}

pub open spec fn no_more(d: Seq<u8>, j: int) -> bool {
    forall|k: int| (#[trigger] raw(d, j, k)) != 0 ==> 0 <= k < image::ent_count(d, j) / 16
}

/// An image as it is built.
pub open spec fn built(d: Seq<u8>) -> bool {
    tight(d) && plain_dirs(d)
}

/// What entering a name does to its directory's inode.
#[verifier::spinoff_prover]
#[verifier::rlimit(40)]
proof fn lemma_entered_words(d: Seq<u8>, i: int, name: Seq<u8>, c: int)
    requires
        tight(d),
        image::is_ino(d, i),
        image::ent_count(d, i) % 16 == 0,
        name.len() <= image::NAME_LEN,
        image::entered(d, i, name, c) is Some,
    ensures
        ({
            let g = image::entered(d, i, name, c)->0;
            let n = image::ent_count(d, i);
            let io = image::ino_pos(i);
            &&& dev::word(g, io + 40) == dev::word(d, io + 40)
            &&& image::ent_count(g, i) == n || image::ent_count(g, i) == n + 16
            &&& forall|k: int|
                0 <= k < 8 ==> (#[trigger] dev::word(g, io + 8 + 4 * k)) == dev::word(d, io + 8 + 4 * k) || (k == n
                    / 16 && image::ent_count(g, i) == n + 16)
        }),
{
    let n = image::ent_count(d, i);
    let u = image::unused(d, i, 0);
    let io = image::ino_pos(i);
    let g = image::entered(d, i, name, c)->0;
    image::lemma_ino_room(d, i);
    assert(image::ino_pos(1) == 1536);
    lemma_unused_block(d, i, 0);
    if u < n {
        let s = u / 16;
        assert(image::ent_block(d, i, u) == raw(d, i, s));
        assert(in_use(d, raw(d, i, s)));
        assert(laws::same_bytes(d, g, io, 64));
        laws::lemma_word_same(d, g, io + 40);
        laws::lemma_word_same(d, g, io + 4);
        assert forall|k: int| 0 <= k < 8 implies (#[trigger] dev::word(g, io + 8 + 4 * k)) == dev::word(
            d,
            io + 8 + 4 * k,
        ) by {
            laws::lemma_word_same(d, g, io + 8 + 4 * k);
        }
    } else {
        let (f, b) = image::grabbed(d)->0;
        lemma_tight_grab(d);
        let s = n / 16;
        let o = io + 8 + 4 * s;
        let f1 = dev::with_word(f, o, b as u32);
        let z = (n * 32 + BLOCK) as u32;
        let f2 = dev::with_word(f1, io + 4, z);
        assert(laws::same_bytes(d, f, io, 64));
        assert(laws::same_bytes(f2, g, io, 64));
        dev::law_word_stored(f, o, b as u32, io + 40);
        dev::law_word_stored(f1, io + 4, z, io + 40);
        dev::law_word_stored(f1, io + 4, z, io + 4);
        laws::lemma_word_same(d, f, io + 40);
        laws::lemma_word_same(f2, g, io + 40);
        laws::lemma_word_same(f2, g, io + 4);
        assert(image::ent_count(g, i) == n + 16);
        assert forall|k: int| 0 <= k < 8 && k != s implies (#[trigger] dev::word(g, io + 8 + 4 * k)) == dev::word(
            d,
            io + 8 + 4 * k,
        ) by {
            let p = io + 8 + 4 * k;
            laws::lemma_word_same(d, f, p);
            dev::law_word_stored(f, o, b as u32, p);
            dev::law_word_stored(f1, io + 4, z, p);
            laws::lemma_word_same(f2, g, p);
        }
    }
}

/// Two directories of a tight image have no block in common.
pub proof fn lemma_dirs_apart(d: Seq<u8>, j: int, k: int)
    requires
        tight(d),
        laws::tidy(d, j),
        laws::tidy(d, k),
        j != k,
    ensures
        laws::dirs_apart(d, j, k),
{
    assert forall|x: int| #[trigger] laws::in_dir(d, j, x) implies !laws::in_dir(d, k, x) by {
        let s = choose|s: int| 0 <= s < image::ent_count(d, j) / 16 && #[trigger] laws::dir_block(d, j, s) == x;
        assert(raw(d, j, s) == x);
        assert(laws::first(d) <= laws::dir_block(d, j, s));
        if laws::in_dir(d, k, x) {
            let t = choose|t: int| 0 <= t < image::ent_count(d, k) / 16 && #[trigger] laws::dir_block(d, k, t) == x;
            assert(raw(d, k, t) == x);
            assert(raw(d, j, s) != raw(d, k, t));
        }
    }
}

/// Adding a file under a new name keeps a built image one.
#[verifier::spinoff_prover]
#[verifier::rlimit(60)]
pub proof fn law_add_keeps_built(d: Seq<u8>, parent: int, name: Seq<u8>, data: Seq<u8>)
    requires
        built(d),
        image::is_ino(d, parent),
        image::kind_of(d, parent) == image::KIND_DIR,
        laws::name_ok(name),
        image::looked_up(d, parent, name) is None,
        data.len() <= u32::MAX,
        image::added(d, parent, name, data) is Some,
    ensures
        built(image::added(d, parent, name, data)->0),
{
    let g = image::added(d, parent, name, data)->0;
    let i = image::first_ino(d, 1)->0;
    law_add_keeps_tight(d, parent, name, data);
    laws::lemma_added(d, parent, name, data);
    laws::lemma_first_ino(d, 1);
    assert(laws::tidy(d, parent) && no_more(d, parent));
    image::lemma_ino_room(d, i);
    image::lemma_ino_room(d, parent);
    assert(image::ino_pos(1) == 1536);
    assert forall|j: int| #[trigger] image::is_ino(g, j) && image::kind_of(g, j) == image::KIND_DIR implies laws::tidy(
        g,
        j,
    ) && no_more(g, j) by {
        assert(j != i);
        assert(image::is_ino(d, j));
        if j == parent {
            lemma_parent_no_more(d, parent, name, data);
        } else {
            image::lemma_ino_room(d, j);
            let jo = image::ino_pos(j);
            assert(jo + 64 <= image::ino_pos(i) || image::ino_pos(i) + 64 <= jo) by {
                assert(jo - image::ino_pos(i) == (j - i) * 64);
            }
            assert(jo + 64 <= image::ino_pos(parent) || image::ino_pos(parent) + 64 <= jo) by {
                assert(jo - image::ino_pos(parent) == (j - parent) * 64);
            }
            assert(laws::same_bytes(d, g, jo, 64));
            assert(g[jo] == d[jo]);
            assert(laws::tidy(d, j) && no_more(d, j));
            lemma_dirs_apart(d, j, parent);
            laws::law_add_keeps_dirs(d, parent, name, data, j, name);
            assert(raw(d, j, 136) == 0);
            lemma_raw_same(d, g, j);
            laws::lemma_word_same(d, g, jo + 4);
        }
    }
}

/// The directory that got the name has no block behind its entries.
#[verifier::spinoff_prover]
#[verifier::rlimit(40)]
proof fn lemma_parent_no_more(d: Seq<u8>, parent: int, name: Seq<u8>, data: Seq<u8>)
    requires
        built(d),
        image::is_ino(d, parent),
        image::kind_of(d, parent) == image::KIND_DIR,
        name.len() <= image::NAME_LEN,
        image::added(d, parent, name, data) is Some,
        image::first_ino(d, 1)->0 != parent,
    ensures
        no_more(image::added(d, parent, name, data)->0, parent),
{
    let g = image::added(d, parent, name, data)->0;
    let i = image::first_ino(d, 1)->0;
    laws::lemma_first_ino(d, 1);
    assert(laws::tidy(d, parent) && no_more(d, parent));
    image::lemma_ino_room(d, i);
    image::lemma_ino_room(d, parent);
    let io = image::ino_pos(i);
    let po = image::ino_pos(parent);
    let d1 = image::ino_set(d, i, KIND_FILE, 0);
    assert forall|x: int| 0 <= x < SIZE && !(io <= x < io + 8) && !(io + 44 <= x < io + 64) implies #[trigger] d1[x]
        == d[x] by {}
    lemma_tight_plain(d, d1, i);
    lemma_tight_grown(image::start(d1), i, data, 0);
    let e = image::grown(image::start(d1), io, data, 0)->0;
    laws::lemma_grown_elsewhere(d, i, data, parent);
    laws::lemma_word_same(d, e, po + 4);
    laws::lemma_word_same(d, e, po + 40);
    lemma_entered_words(e, parent, name, i);
    lemma_tight_entered(e, parent, name, i);
    assert(raw(d, parent, 136) == 0);
    assert(list_of(g, parent) == 0);
    assert forall|k: int| (#[trigger] raw(g, parent, k)) != 0 implies 0 <= k < image::ent_count(g, parent) / 16 by {
        if 0 <= k < 8 {
            laws::lemma_word_same(d, e, po + 8 + 4 * k);
            assert(dev::word(g, po + 8 + 4 * k) == dev::word(e, po + 8 + 4 * k) || k == image::ent_count(e, parent)
                / 16);
            assert(raw(d, parent, k) == dev::word(d, po + 8 + 4 * k));
        }
    }
}

/// An empty image is a built one.
#[verifier::spinoff_prover]
#[verifier::rlimit(40)]
pub proof fn law_fresh_built(nfiles: int)
    requires
        0 <= nfiles <= MAX_FILES,
    ensures
        built(image::fresh(nfiles)),
{
    let d = image::fresh(nfiles);
    law_fresh_tight(nfiles);
    laws::law_fresh(nfiles);
    let b = mount::lemma_fresh_bytes(nfiles);
    assert(image::ino_pos(1) == 1536 && image::ino_pos(2) == 1600);
    assert forall|j: int| #[trigger] image::is_ino(d, j) && image::kind_of(d, j) == image::KIND_DIR implies laws::tidy(
        d,
        j,
    ) && no_more(d, j) by {
        image::lemma_ino_room(d, j);
        let io = image::ino_pos(j);
        if j >= 3 {
            assert(io == 1536 + (j - 1) * 64);
            assert(d[io] == 0);
        }
        mount::lemma_zero_word(d, io + 40);
        assert forall|k: int| (#[trigger] raw(d, j, k)) != 0 implies 0 <= k < image::ent_count(d, j) / 16 by {
            if j == 2 && 0 <= k < 8 {
                mount::lemma_zero_word(d, io + 8 + 4 * k);
            }
            if j == 1 && 1 <= k < 8 {
                mount::lemma_zero_word(d, io + 8 + 4 * k);
            }
        }
    }
}

/// To the kernel a built image is an orderly disk: all that holds of those
/// holds of what was built, however many files were added.
#[verifier::spinoff_prover]
#[verifier::rlimit(40)]
pub proof fn law_built_is_orderly(d: Seq<u8>)
    requires
        built(d),
    ensures
        names::orderly(mount::disk_of(d), mount::geo(d)),
{
    let q = mount::disk_of(d);
    let g = mount::geo(d);
    law_tight_is_sound(d);
    assert forall|j: u32|
        (#[trigger] disk::ino_at(q, g, j)) matches Some(r) && r.kind == disk::KIND_DIR implies names::clean(
        q,
        disk::ino_at(q, g, j)->0,
    ) by {
        let r = disk::ino_at(q, g, j)->0;
        let jo = image::ino_pos(j as int);
        mount::lemma_ino_words(d, j);
        assert(image::is_ino(d, j as int));
        assert(image::kind_of(d, j as int) == image::KIND_DIR);
        assert(laws::tidy(d, j as int) && no_more(d, j as int));
        assert forall|m: int|
            0 <= m < names::PLACES && (#[trigger] names::slot(q, r, m) matches Some(s) && (m >= disk::dent_count(r)
                || s[0] == 0)) implies forall|x: int| 0 <= x < disk::NAME_LEN ==> (names::slot(q, r, m)->0)[x]
            == 0 by {
            let k = disk::dent_block(m);
            sound::lemma_block_own(q, r, k);
            assert(sound::own(q, g, j, k as int) == sound::own_of(q, r, k as int));
            lemma_own(d, j, k as int);
            let b = raw(d, j as int, k as int);
            assert(b != 0 && in_use(d, b));
            assert(k < image::ent_count(d, j as int) / 16);
            assert(m < image::ent_count(d, j as int));
            laws::lemma_ent(d, j as int, m);
            let p = image::ent_pos(d, j as int, m);
            let o = disk::dent_off(m);
            assert(p == b * BLOCK + o);
            mount::lemma_at(d, b);
            let s = names::slot(q, r, m)->0;
            assert(s[0] == q.at(b)[o]);
            assert(q.at(b)[o] == d[b * BLOCK + o]);
            assert(laws::clean(d, p));
            assert forall|x: int| 0 <= x < disk::NAME_LEN implies s[x] == 0 by {
                assert(s[x] == q.at(b)[o + x]);
                assert(q.at(b)[o + x] == d[b * BLOCK + (o + x)]);
                assert(d[p + x] == 0);
            }
        }
    }
}

} // verus!
