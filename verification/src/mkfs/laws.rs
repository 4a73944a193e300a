//! What an image gives back.
use crate::fs::dev;
use crate::mkfs::image;
use crate::mkfs::image::{
    Grow, BIN_INO, BLOCK, INO_SIZE, JLBA, KIND_DIR, KIND_FILE, MAX_DIR, MAX_FILES, NAME_LEN, NBLOCKS,
    ROOT_INO, SIZE,
};
use vstd::prelude::*;

verus! {

// ---- what a change leaves alone ----

pub open spec fn same_bytes(d: Seq<u8>, e: Seq<u8>, o: int, n: int) -> bool {
    forall|i: int| o <= i < o + n ==> #[trigger] e[i] == d[i]
}

pub open spec fn same_block(d: Seq<u8>, e: Seq<u8>, b: int) -> bool {
    same_bytes(d, e, b * BLOCK, BLOCK as int)
}

pub proof fn lemma_word_same(d: Seq<u8>, e: Seq<u8>, o: int)
    requires
        same_bytes(d, e, o, 4),
    ensures
        dev::word(e, o) == dev::word(d, o),
{
    assert(e[o] == d[o] && e[o + 1] == d[o + 1] && e[o + 2] == d[o + 2] && e[o + 3] == d[o + 3]);
}

/// First block for data.
pub open spec fn first(d: Seq<u8>) -> int {
    image::data_lba(image::ninodes(d))
}

/// A block grabbed was free; nothing else changes but its bit.
pub proof fn lemma_grab(d: Seq<u8>)
    requires
        image::wf(d),
        image::grabbed(d) is Some,
    ensures
        ({
            let (e, b) = image::grabbed(d)->0;
            &&& image::wf(e)
            &&& image::ninodes(e) == image::ninodes(d)
            &&& first(d) <= b < JLBA
            &&& !image::used(d, b)
            &&& forall|x: int|
                0 <= x < NBLOCKS ==> #[trigger] image::used(e, x) == (x == b || image::used(d, x))
            &&& forall|i: int|
                (0 <= i < BLOCK || 3 * BLOCK <= i < SIZE) && !(b * BLOCK <= i < b * BLOCK + BLOCK)
                    ==> #[trigger] e[i] == d[i]
            &&& forall|i: int| b * BLOCK <= i < b * BLOCK + BLOCK ==> #[trigger] e[i] == 0
        }),
{
    let (e, b) = image::grabbed(d)->0;
    image::lemma_free(d, 0);
    assert(b >= first(d)) by {
        if b < first(d) {
            assert(image::used(d, b));
        }
    }
    let m = image::marked(d, b);
    image::lemma_marked(d, b, 0);
    assert forall|i: int|
        (0 <= i < BLOCK || 3 * BLOCK <= i < SIZE) && !(b * BLOCK <= i < b * BLOCK + BLOCK) implies #[trigger] e[i]
        == d[i] by {
        assert(m[i] == d[i]);
    }
    assert forall|x: int| 0 <= x < NBLOCKS implies #[trigger] image::used(e, x) == (x == b || image::used(
        d,
        x,
    )) by {
        image::lemma_marked(d, b, x);
        assert(e[BLOCK + x / 8] == m[BLOCK + x / 8]);
    }
    assert(e[32] == d[32] && e[33] == d[33] && e[34] == d[34] && e[35] == d[35]);
}

// ---- a file that grows ----

/// Blocks of a file: of its data, of the lists in its list of lists, and of
/// its two top lists (0: none).
#[verifier::ext_equal]
pub struct Parts {
    pub p: Seq<int>,
    pub l: Seq<int>,
    pub ind: int,
    pub dind: int,
}

/// The block was free at first and belongs to the file now.
pub open spec fn taken(d0: Seq<u8>, d: Seq<u8>, b: int) -> bool {
    first(d0) <= b < JLBA && !image::used(d0, b) && image::used(d, b)
}

/// Nothing that was in use at first changed, but for the inode.
pub open spec fn base(d0: Seq<u8>, d: Seq<u8>, i: int) -> bool {
    &&& image::wf(d0)
    &&& image::is_ino(d0, i)
    &&& image::wf(d)
    &&& image::ninodes(d) == image::ninodes(d0)
    &&& forall|x: int| 0 <= x < NBLOCKS && image::used(d0, x) ==> #[trigger] image::used(d, x)
    &&& forall|x: int| first(d0) <= x < NBLOCKS && #[trigger] image::used(d0, x) ==> same_block(d0, d, x)
    &&& same_bytes(d0, d, 0, BLOCK as int)
    &&& same_bytes(d0, d, 3 * BLOCK, image::ino_pos(i) + 4 - 3 * BLOCK)
    &&& same_bytes(
        d0,
        d,
        image::ino_pos(i) + INO_SIZE,
        first(d0) * BLOCK - image::ino_pos(i) - INO_SIZE,
    )
}

pub open spec fn blocks(d0: Seq<u8>, d: Seq<u8>, f: Parts) -> bool {
    &&& forall|j: int| 0 <= j < f.p.len() ==> taken(d0, d, #[trigger] f.p[j])
    &&& forall|m: int| 0 <= m < f.l.len() ==> taken(d0, d, #[trigger] f.l[m])
    &&& f.ind != 0 ==> taken(d0, d, f.ind)
    &&& f.dind != 0 ==> taken(d0, d, f.dind)
}

/// The block is none of the file's.
pub open spec fn loose(f: Parts, b: int) -> bool {
    &&& forall|j: int| 0 <= j < f.p.len() ==> #[trigger] f.p[j] != b
    &&& forall|m: int| 0 <= m < f.l.len() ==> #[trigger] f.l[m] != b
    &&& f.ind != b
    &&& f.dind != b
}

/// Lists are apart from each other and from data.
pub open spec fn apart(f: Parts) -> bool {
    &&& forall|j: int, m: int|
        0 <= j < f.p.len() && 0 <= m < f.l.len() ==> #[trigger] f.p[j] != #[trigger] f.l[m]
    &&& forall|j: int| 0 <= j < f.p.len() ==> #[trigger] f.p[j] != f.ind && f.p[j] != f.dind
    &&& forall|m: int| 0 <= m < f.l.len() ==> #[trigger] f.l[m] != f.ind && f.l[m] != f.dind
    &&& forall|m: int, n: int|
        0 <= m < n < f.l.len() ==> #[trigger] f.l[m] != #[trigger] f.l[n]
    &&& f.ind != 0 ==> f.ind != f.dind
}

/// Where the number of block `j` is stored.
pub open spec fn spot(f: Parts, io: int, j: int) -> int {
    if j < 8 {
        io + 8 + 4 * j
    } else if j < 136 {
        f.ind * BLOCK + 4 * (j - 8)
    } else {
        f.l[(j - 136) / 128] * BLOCK + 4 * ((j - 136) % 128)
    }
}

/// There are lists for the blocks, and all numbers are stored.
pub open spec fn words(d: Seq<u8>, io: int, f: Parts) -> bool {
    let k = f.p.len();
    &&& k > 8 ==> f.ind != 0
    &&& k > 136 ==> f.dind != 0 && f.l.len() * 128 >= k - 136
    &&& f.l.len() <= 128
    &&& f.l.len() > 0 ==> f.dind != 0
    &&& f.ind != 0 ==> dev::word(d, io + 40) == f.ind
    &&& f.dind != 0 ==> dev::word(d, io + 48) == f.dind
    &&& f.dind != 0 ==> forall|m: int|
        0 <= m < 128 ==> #[trigger] dev::word(d, f.dind * BLOCK + 4 * m) == if m < f.l.len() {
            f.l[m]
        } else {
            0
        }
    &&& forall|j: int| 0 <= j < k ==> dev::word(d, spot(f, io, j)) == #[trigger] f.p[j]
}

/// The block holds these bytes at its start.
pub open spec fn holds(d: Seq<u8>, b: int, v: Seq<u8>) -> bool {
    forall|x: int| 0 <= x < v.len() ==> d[b * BLOCK + x] == #[trigger] v[x]
}

pub open spec fn pieces(d: Seq<u8>, f: Parts, data: Seq<u8>) -> bool {
    forall|j: int| 0 <= j < f.p.len() ==> holds(d, #[trigger] f.p[j], image::piece(data, j))
}

pub open spec fn linked(d0: Seq<u8>, d: Seq<u8>, i: int, f: Parts, data: Seq<u8>) -> bool {
    &&& base(d0, d, i)
    &&& blocks(d0, d, f)
    &&& apart(f)
    &&& words(d, image::ino_pos(i), f)
    &&& pieces(d, f, data)
    &&& 0 <= f.ind
    &&& 0 <= f.dind
    &&& f.p.len() <= 16520
    &&& (f.p.len() - 1) * BLOCK < data.len() || f.p.len() == 0
}

pub proof fn lemma_piece_len(data: Seq<u8>, k: int)
    requires
        0 <= k,
        k * BLOCK < data.len(),
    ensures
        0 < image::piece(data, k).len() <= BLOCK,
{
}

/// A spot lies in a block of the file or in its inode.
pub proof fn lemma_spot(d: Seq<u8>, io: int, f: Parts, j: int)
    requires
        words(d, io, f),
        0 <= j < f.p.len(),
        f.p.len() <= 16520,
    ensures
        j >= 136 ==> 0 <= (j - 136) / 128 < f.l.len() && 0 <= (j - 136) % 128 < 128,
{
    if j >= 136 {
        assert((j - 136) / 128 < f.l.len()) by {
            assert(f.l.len() * 128 >= f.p.len() - 136);
        }
    }
}

/// A change outside the file's blocks and what was in use keeps the file.
#[verifier::spinoff_prover]
proof fn lemma_untouched(d0: Seq<u8>, d: Seq<u8>, e: Seq<u8>, i: int, f: Parts, data: Seq<u8>, b: int)
    requires
        linked(d0, d, i, f, data),
        image::wf(e),
        image::ninodes(e) == image::ninodes(d),
        forall|x: int| 0 <= x < NBLOCKS && image::used(d, x) ==> #[trigger] image::used(e, x),
        forall|x: int|
            3 <= x < NBLOCKS && #[trigger] image::used(d, x) && x != b ==> same_block(d, e, x),
        same_bytes(d, e, 0, BLOCK as int),
        first(d0) <= b,
        !image::used(d0, b),
        loose(f, b),
    ensures
        linked(d0, e, i, f, data),
{
    let io = image::ino_pos(i);
    image::lemma_ino_room(d0, i);
    // The inode table is in use.
    assert forall|x: int| 3 * BLOCK <= x < first(d0) * BLOCK implies #[trigger] e[x] == d[x] by {
        let q = x / (BLOCK as int);
        assert(image::used(d0, q));
        assert(image::used(d, q));
        assert(same_block(d, e, q));
        assert(q * BLOCK <= x < q * BLOCK + BLOCK);
    }
    assert forall|x: int| first(d0) <= x < NBLOCKS && #[trigger] image::used(d0, x) implies same_block(
        d0,
        e,
        x,
    ) by {
        assert(image::used(d, x));
        assert(same_block(d, e, x));
        assert(same_block(d0, d, x));
    }
    assert forall|x: int| 0 <= x < BLOCK implies #[trigger] e[x] == d0[x] by {
        assert(e[x] == d[x]);
    }
    assert forall|x: int| 3 * BLOCK <= x < io + 4 implies #[trigger] e[x] == d0[x] by {
        assert(e[x] == d[x]);
    }
    assert forall|x: int| io + INO_SIZE <= x < first(d0) * BLOCK implies #[trigger] e[x] == d0[x] by {
        assert(e[x] == d[x]);
    }
    assert(base(d0, e, i));
    assert forall|j: int| 0 <= j < f.p.len() implies taken(d0, e, #[trigger] f.p[j]) by {
        assert(taken(d0, d, f.p[j]));
    }
    assert forall|m: int| 0 <= m < f.l.len() implies taken(d0, e, #[trigger] f.l[m]) by {
        assert(taken(d0, d, f.l[m]));
    }
    if f.ind != 0 {
        assert(same_block(d, e, f.ind));
        lemma_word_same(d, e, io + 40);
    }
    if f.dind != 0 {
        assert(same_block(d, e, f.dind));
        lemma_word_same(d, e, io + 48);
        assert forall|m: int| 0 <= m < 128 implies #[trigger] dev::word(e, f.dind * BLOCK + 4 * m) == if m
            < f.l.len() {
            f.l[m]
        } else {
            0
        } by {
            lemma_word_same(d, e, f.dind * BLOCK + 4 * m);
        }
    }
    assert forall|j: int| 0 <= j < f.p.len() implies dev::word(e, spot(f, io, j)) == #[trigger] f.p[j] by {
        lemma_spot(d, io, f, j);
        if j >= 136 {
            let l = f.l[(j - 136) / 128];
            assert(taken(d0, d, l));
            assert(same_block(d, e, l));
        }
        lemma_word_same(d, e, spot(f, io, j));
        assert(dev::word(d, spot(f, io, j)) == f.p[j]);
    }
    assert forall|j: int| 0 <= j < f.p.len() implies holds(e, #[trigger] f.p[j], image::piece(data, j)) by {
        assert(taken(d0, d, f.p[j]));
        assert(same_block(d, e, f.p[j]));
        assert(holds(d, f.p[j], image::piece(data, j)));
        lemma_piece_len(data, j);
    }
}

/// A grab keeps the file, and the block is none of its.
proof fn lemma_grab_keeps(d0: Seq<u8>, d: Seq<u8>, i: int, f: Parts, data: Seq<u8>)
    requires
        linked(d0, d, i, f, data),
        image::grabbed(d) is Some,
    ensures
        ({
            let (e, b) = image::grabbed(d)->0;
            &&& linked(d0, e, i, f, data)
            &&& loose(f, b)
            &&& taken(d0, e, b)
            &&& b > 0
            &&& forall|x: int| b * BLOCK <= x < b * BLOCK + BLOCK ==> #[trigger] e[x] == 0
            &&& forall|x: int| 0 <= x < NBLOCKS && image::used(d, x) ==> #[trigger] image::used(e, x)
            &&& forall|x: int| 3 <= x < NBLOCKS && #[trigger] image::used(d, x) ==> same_block(d, e, x)
            &&& !image::used(d, b)
        }),
{
    lemma_grab(d);
    let (e, b) = image::grabbed(d)->0;
    assert(!image::used(d0, b)) by {
        if image::used(d0, b) {
            assert(image::used(d, b));
        }
    }
    assert forall|j: int| 0 <= j < f.p.len() implies #[trigger] f.p[j] != b by {
        assert(taken(d0, d, f.p[j]));
    }
    assert forall|m: int| 0 <= m < f.l.len() implies #[trigger] f.l[m] != b by {
        assert(taken(d0, d, f.l[m]));
    }
    assert forall|x: int| 3 <= x < NBLOCKS && #[trigger] image::used(d, x) implies same_block(d, e, x) by {
        assert(x != b);
    }
    lemma_untouched(d0, d, e, i, f, data, b);
}

/// A word written into a list or the inode changes that word alone.
proof fn lemma_word_put(d: Seq<u8>, o: int, v: u32, p: int)
    requires
        d.len() == SIZE,
        0 <= o,
        o + 4 <= SIZE,
        0 <= p,
        p + 4 <= SIZE,
    ensures
        dev::word(dev::with_word(d, o, v), o) == v,
        p + 4 <= o || o + 4 <= p ==> dev::word(dev::with_word(d, o, v), p) == dev::word(d, p),
        forall|x: int| 0 <= x < SIZE && !(o <= x < o + 4) ==> #[trigger] dev::with_word(d, o, v)[x] == d[x],
        dev::with_word(d, o, v).len() == SIZE,
{
    dev::law_word_stored(d, o, v, p);
}

/// The frame of a word written in the inode or in a block that was free.
proof fn lemma_base_word(d0: Seq<u8>, d: Seq<u8>, i: int, o: int, v: u32)
    requires
        base(d0, d, i),
        (image::ino_pos(i) + 4 <= o && o + 4 <= image::ino_pos(i) + INO_SIZE) || exists|t: int|
            first(d0) <= t < JLBA && !#[trigger] image::used(d0, t) && t * BLOCK <= o && o + 4 <= t * BLOCK
                + BLOCK,
    ensures
        base(d0, dev::with_word(d, o, v), i),
        forall|x: int| 0 <= x < NBLOCKS ==> #[trigger] image::used(dev::with_word(d, o, v), x) == image::used(
            d,
            x,
        ),
{
    let e = dev::with_word(d, o, v);
    image::lemma_ino_room(d0, i);
    assert(o >= 3 * BLOCK);
    assert forall|x: int| 0 <= x < NBLOCKS implies #[trigger] image::used(e, x) == image::used(d, x) by {
        assert(e[BLOCK + x / 8] == d[BLOCK + x / 8]);
    }
    assert(e[32] == d[32] && e[33] == d[33] && e[34] == d[34] && e[35] == d[35]);
    assert forall|x: int| first(d0) <= x < NBLOCKS && #[trigger] image::used(d0, x) implies same_block(
        d0,
        e,
        x,
    ) by {
        assert(same_block(d0, d, x));
        if !(image::ino_pos(i) + 4 <= o && o + 4 <= image::ino_pos(i) + INO_SIZE) {
            let t = choose|t: int|
                first(d0) <= t < JLBA && !#[trigger] image::used(d0, t) && t * BLOCK <= o && o + 4 <= t
                    * BLOCK + BLOCK;
            assert(t != x);
        }
    }
    assert forall|x: int| 0 <= x < first(d0) implies #[trigger] image::used(e, x) by {
        assert(image::used(d0, x));
        assert(image::used(d, x));
    }
}

/// Facts of the file after a word is written at `o`: everything that does not
/// lie there is as before.
proof fn lemma_rest_kept(d0: Seq<u8>, d: Seq<u8>, i: int, f: Parts, data: Seq<u8>, o: int, v: u32, j: int)
    requires
        linked(d0, d, i, f, data),
        3 * BLOCK <= o,
        o + 4 <= SIZE,
        0 <= j < f.p.len(),
    ensures
        ({
            let e = dev::with_word(d, o, v);
            let s = spot(f, image::ino_pos(i), j);
            &&& (s + 4 <= o || o + 4 <= s) ==> dev::word(e, s) == f.p[j]
            &&& (o + 4 <= f.p[j] * BLOCK || f.p[j] * BLOCK + BLOCK <= o) ==> holds(
                e,
                f.p[j],
                image::piece(data, j),
            )
        }),
{
    let io = image::ino_pos(i);
    image::lemma_ino_room(d0, i);
    let e = dev::with_word(d, o, v);
    lemma_spot(d, io, f, j);
    let s = spot(f, io, j);
    if j >= 136 {
        assert(taken(d0, d, f.l[(j - 136) / 128]));
    }
    assert(taken(d0, d, f.p[j]));
    lemma_word_put(d, o, v, s);
    assert(dev::word(d, s) == f.p[j]);
    assert(holds(d, f.p[j], image::piece(data, j)));
    lemma_piece_len(data, j);
}

/// A new first list.
#[verifier::spinoff_prover]
#[verifier::rlimit(60)]
proof fn lemma_add_ind(d0: Seq<u8>, d: Seq<u8>, i: int, f: Parts, data: Seq<u8>, b: int)
    requires
        linked(d0, d, i, f, data),
        f.ind == 0,
        loose(f, b),
        taken(d0, d, b),
    ensures
        linked(
            d0,
            dev::with_word(d, image::ino_pos(i) + 40, b as u32),
            i,
            Parts { ind: b, ..f },
            data,
        ),
{
    let io = image::ino_pos(i);
    let o = io + 40;
    let e = dev::with_word(d, o, b as u32);
    let g = Parts { ind: b, ..f };
    image::lemma_ino_room(d0, i);
    lemma_base_word(d0, d, i, o, b as u32);
    lemma_word_put(d, o, b as u32, io + 48);
    assert forall|j: int| 0 <= j < g.p.len() implies taken(d0, e, #[trigger] g.p[j]) by {
        assert(taken(d0, d, f.p[j]));
    }
    assert forall|m: int| 0 <= m < g.l.len() implies taken(d0, e, #[trigger] g.l[m]) by {
        assert(taken(d0, d, f.l[m]));
    }
    assert forall|j: int| 0 <= j < g.p.len() implies dev::word(e, spot(g, io, j)) == #[trigger] g.p[j] by {
        lemma_rest_kept(d0, d, i, f, data, o, b as u32, j);
        lemma_spot(d, io, f, j);
        if j >= 136 {
            assert(taken(d0, d, f.l[(j - 136) / 128]));
        }
        assert(j < 8 || j >= 136);
    }
    if g.dind != 0 {
        assert forall|m: int| 0 <= m < 128 implies #[trigger] dev::word(e, g.dind * BLOCK + 4 * m) == if m
            < g.l.len() {
            g.l[m]
        } else {
            0
        } by {
            lemma_word_put(d, o, b as u32, g.dind * BLOCK + 4 * m);
        }
    }
    assert forall|j: int| 0 <= j < g.p.len() implies holds(e, #[trigger] g.p[j], image::piece(data, j)) by {
        lemma_rest_kept(d0, d, i, f, data, o, b as u32, j);
        assert(taken(d0, d, f.p[j]));
    }
}

/// A new list of lists, empty.
#[verifier::spinoff_prover]
#[verifier::rlimit(60)]
proof fn lemma_add_dind(d0: Seq<u8>, d: Seq<u8>, i: int, f: Parts, data: Seq<u8>, b: int)
    requires
        linked(d0, d, i, f, data),
        f.dind == 0,
        loose(f, b),
        taken(d0, d, b),
        forall|x: int| b * BLOCK <= x < b * BLOCK + BLOCK ==> #[trigger] d[x] == 0,
    ensures
        linked(
            d0,
            dev::with_word(d, image::ino_pos(i) + 48, b as u32),
            i,
            Parts { dind: b, ..f },
            data,
        ),
{
    let io = image::ino_pos(i);
    let o = io + 48;
    let e = dev::with_word(d, o, b as u32);
    let g = Parts { dind: b, ..f };
    image::lemma_ino_room(d0, i);
    lemma_base_word(d0, d, i, o, b as u32);
    lemma_word_put(d, o, b as u32, io + 40);
    assert(f.l.len() == 0);
    assert forall|j: int| 0 <= j < g.p.len() implies taken(d0, e, #[trigger] g.p[j]) by {
        assert(taken(d0, d, f.p[j]));
    }
    assert forall|j: int| 0 <= j < g.p.len() implies dev::word(e, spot(g, io, j)) == #[trigger] g.p[j] by {
        lemma_rest_kept(d0, d, i, f, data, o, b as u32, j);
    }
    assert forall|m: int| 0 <= m < 128 implies #[trigger] dev::word(e, g.dind * BLOCK + 4 * m) == if m
        < g.l.len() {
        g.l[m]
    } else {
        0
    } by {
        lemma_word_put(d, o, b as u32, b * BLOCK + 4 * m);
        let x = b * BLOCK + 4 * m;
        assert(d[x] == 0 && d[x + 1] == 0 && d[x + 2] == 0 && d[x + 3] == 0);
    }
    assert forall|j: int| 0 <= j < g.p.len() implies holds(e, #[trigger] g.p[j], image::piece(data, j)) by {
        lemma_rest_kept(d0, d, i, f, data, o, b as u32, j);
        assert(taken(d0, d, f.p[j]));
    }
}

/// A new list in the list of lists.
#[verifier::spinoff_prover]
#[verifier::rlimit(60)]
proof fn lemma_add_l1(d0: Seq<u8>, d: Seq<u8>, i: int, f: Parts, data: Seq<u8>, b: int)
    requires
        linked(d0, d, i, f, data),
        f.dind != 0,
        f.l.len() < 128,
        loose(f, b),
        taken(d0, d, b),
    ensures
        linked(
            d0,
            dev::with_word(d, f.dind * BLOCK + 4 * f.l.len(), b as u32),
            i,
            Parts { l: f.l.push(b), ..f },
            data,
        ),
{
    let io = image::ino_pos(i);
    let o = f.dind * BLOCK + 4 * f.l.len();
    let e = dev::with_word(d, o, b as u32);
    let g = Parts { l: f.l.push(b), ..f };
    image::lemma_ino_room(d0, i);
    assert(taken(d0, d, f.dind));
    lemma_base_word(d0, d, i, o, b as u32);
    lemma_word_put(d, o, b as u32, io + 40);
    lemma_word_put(d, o, b as u32, io + 48);
    assert forall|j: int| 0 <= j < g.p.len() implies taken(d0, e, #[trigger] g.p[j]) by {
        assert(taken(d0, d, f.p[j]));
    }
    assert forall|m: int| 0 <= m < g.l.len() implies taken(d0, e, #[trigger] g.l[m]) by {
        if m < f.l.len() {
            assert(taken(d0, d, f.l[m]));
        }
    }
    assert forall|j: int, m: int| 0 <= j < g.p.len() && 0 <= m < g.l.len() implies #[trigger] g.p[j]
        != #[trigger] g.l[m] by {
        if m < f.l.len() {
            assert(f.p[j] != f.l[m]);
        }
    }
    assert forall|m: int| 0 <= m < g.l.len() implies #[trigger] g.l[m] != g.ind && g.l[m] != g.dind by {
        if m < f.l.len() {
            assert(f.l[m] != f.ind);
        }
    }
    assert forall|m: int, n: int| 0 <= m < n < g.l.len() implies #[trigger] g.l[m] != #[trigger] g.l[n] by {
        if n < f.l.len() {
            assert(f.l[m] != f.l[n]);
        } else {
            assert(f.l[m] != b);
        }
    }
    assert forall|j: int| 0 <= j < g.p.len() implies dev::word(e, spot(g, io, j)) == #[trigger] g.p[j] by {
        lemma_rest_kept(d0, d, i, f, data, o, b as u32, j);
        lemma_spot(d, io, f, j);
        if j >= 136 {
            let l = f.l[(j - 136) / 128];
            assert(taken(d0, d, l));
            assert(l != f.dind);
            assert(g.l[(j - 136) / 128] == l);
        }
        if f.ind != 0 {
            assert(taken(d0, d, f.ind));
        }
    }
    assert forall|m: int| 0 <= m < 128 implies #[trigger] dev::word(e, g.dind * BLOCK + 4 * m) == if m
        < g.l.len() {
        g.l[m]
    } else {
        0
    } by {
        lemma_word_put(d, o, b as u32, f.dind * BLOCK + 4 * m);
        assert(dev::word(d, f.dind * BLOCK + 4 * m) == if m < f.l.len() {
            f.l[m]
        } else {
            0
        });
    }
    assert forall|j: int| 0 <= j < g.p.len() implies holds(e, #[trigger] g.p[j], image::piece(data, j)) by {
        lemma_rest_kept(d0, d, i, f, data, o, b as u32, j);
        assert(taken(d0, d, f.p[j]));
        assert(f.p[j] != f.dind);
    }
}

/// The next block of data noted in its spot.
#[verifier::spinoff_prover]
#[verifier::rlimit(60)]
proof fn lemma_add_ptr(d0: Seq<u8>, d: Seq<u8>, i: int, f: Parts, data: Seq<u8>, b: int)
    requires
        linked(d0, d, i, f, data),
        loose(f, b),
        taken(d0, d, b),
        f.p.len() < 16520,
        f.p.len() * BLOCK < data.len(),
        holds(d, b, image::piece(data, f.p.len() as int)),
        f.p.len() >= 8 ==> f.ind != 0,
        f.p.len() >= 136 ==> f.dind != 0 && (f.p.len() - 136) / 128 < f.l.len(),
    ensures
        linked(
            d0,
            dev::with_word(d, spot(f, image::ino_pos(i), f.p.len() as int), b as u32),
            i,
            Parts { p: f.p.push(b), ..f },
            data,
        ),
{
    let io = image::ino_pos(i);
    let k = f.p.len() as int;
    let o = spot(f, io, k);
    let e = dev::with_word(d, o, b as u32);
    let g = Parts { p: f.p.push(b), ..f };
    image::lemma_ino_room(d0, i);
    let t = if k < 136 {
        f.ind
    } else {
        f.l[(k - 136) / 128]
    };
    if k >= 136 {
        assert(taken(d0, d, t));
        assert(0 <= (k - 136) % 128 < 128);
        assert(t != f.ind && t != f.dind);
    } else if k >= 8 {
        assert(taken(d0, d, t));
    }
    lemma_base_word(d0, d, i, o, b as u32);
    lemma_word_put(d, o, b as u32, io + 40);
    lemma_word_put(d, o, b as u32, io + 48);
    assert forall|j: int| 0 <= j < g.p.len() implies taken(d0, e, #[trigger] g.p[j]) by {
        if j < k {
            assert(taken(d0, d, f.p[j]));
        }
    }
    assert forall|m: int| 0 <= m < g.l.len() implies taken(d0, e, #[trigger] g.l[m]) by {
        assert(taken(d0, d, f.l[m]));
    }
    assert forall|j: int, m: int| 0 <= j < g.p.len() && 0 <= m < g.l.len() implies #[trigger] g.p[j]
        != #[trigger] g.l[m] by {
        if j < k {
            assert(f.p[j] != f.l[m]);
        } else {
            assert(f.l[m] != b);
        }
    }
    assert forall|j: int| 0 <= j < g.p.len() implies #[trigger] g.p[j] != g.ind && g.p[j] != g.dind by {
        if j < k {
            assert(f.p[j] != f.ind);
        }
    }
    assert forall|j: int| 0 <= j < g.p.len() implies dev::word(e, spot(g, io, j)) == #[trigger] g.p[j] by {
        if j < k {
            lemma_rest_kept(d0, d, i, f, data, o, b as u32, j);
            lemma_spot(d, io, f, j);
            lemma_apart_spots(d0, d, i, f, data, j);
            assert(spot(g, io, j) == spot(f, io, j));
        } else {
            assert(spot(g, io, j) == o);
        }
    }
    if g.dind != 0 {
        assert(taken(d0, d, g.dind));
        assert forall|m: int| 0 <= m < 128 implies #[trigger] dev::word(e, g.dind * BLOCK + 4 * m) == if m
            < g.l.len() {
            g.l[m]
        } else {
            0
        } by {
            lemma_word_put(d, o, b as u32, f.dind * BLOCK + 4 * m);
        }
    }
    assert forall|j: int| 0 <= j < g.p.len() implies holds(e, #[trigger] g.p[j], image::piece(data, j)) by {
        if j < k {
            lemma_rest_kept(d0, d, i, f, data, o, b as u32, j);
            assert(taken(d0, d, f.p[j]));
            if k >= 136 {
                assert(f.p[j] != f.l[(k - 136) / 128]);
            } else if k >= 8 {
                assert(f.p[j] != f.ind);
            }
        } else {
            lemma_piece_len(data, k);
            if k >= 8 {
                assert(t != b);
            }
        }
    }
}

/// The next spot is apart from those before it.
proof fn lemma_apart_spots(d0: Seq<u8>, d: Seq<u8>, i: int, f: Parts, data: Seq<u8>, j: int)
    requires
        linked(d0, d, i, f, data),
        0 <= j < f.p.len(),
        f.p.len() < 16520,
        f.p.len() >= 8 ==> f.ind != 0,
        f.p.len() >= 136 ==> f.dind != 0 && (f.p.len() - 136) / 128 < f.l.len(),
    ensures
        ({
            let io = image::ino_pos(i);
            let o = spot(f, io, f.p.len() as int);
            let s = spot(f, io, j);
            s + 4 <= o || o + 4 <= s
        }),
{
    let io = image::ino_pos(i);
    let k = f.p.len() as int;
    image::lemma_ino_room(d0, i);
    lemma_spot(d, io, f, j);
    if f.ind != 0 {
        assert(taken(d0, d, f.ind));
    }
    if k >= 136 {
        let t = f.l[(k - 136) / 128];
        assert(taken(d0, d, t));
        assert(t != f.ind);
        if j >= 136 {
            let s = f.l[(j - 136) / 128];
            assert(taken(d0, d, s));
            if (j - 136) / 128 < (k - 136) / 128 {
                assert(s != t);
            } else {
                assert((j - 136) / 128 == (k - 136) / 128);
                assert((j - 136) % 128 < (k - 136) % 128);
            }
        }
    }
}

/// A block that waits to be noted, with its bytes.
pub open spec fn waiting(d0: Seq<u8>, d: Seq<u8>, f: Parts, b: int, v: Seq<u8>) -> bool {
    loose(f, b) && taken(d0, d, b) && holds(d, b, v)
}

/// A word written elsewhere leaves a waiting block as it is.
proof fn lemma_waits(d0: Seq<u8>, d: Seq<u8>, f: Parts, b: int, v: Seq<u8>, o: int, w: u32)
    requires
        waiting(d0, d, f, b, v),
        v.len() <= BLOCK,
        d.len() == SIZE,
        3 * BLOCK <= o,
        o + 4 <= b * BLOCK || b * BLOCK + BLOCK <= o,
    ensures
        waiting(d0, dev::with_word(d, o, w), f, b, v),
{
    let e = dev::with_word(d, o, w);
    assert(e[BLOCK + b / 8] == d[BLOCK + b / 8]);
}

/// The first list is made if it is missing.
proof fn lemma_have_ind(d0: Seq<u8>, d: Seq<u8>, i: int, f: Parts, data: Seq<u8>, b: int, v: Seq<u8>) -> (g:
    Parts)
    requires
        linked(d0, d, i, f, data),
        waiting(d0, d, f, b, v),
        v.len() <= BLOCK,
        image::with_list(d, f.ind, image::ino_pos(i) + 40) is Some,
    ensures
        ({
            let (e, l) = image::with_list(d, f.ind, image::ino_pos(i) + 40)->0;
            &&& linked(d0, e, i, g, data)
            &&& waiting(d0, e, g, b, v)
            &&& g == (Parts { ind: l, ..f })
            &&& l != 0
        }),
{
    if f.ind != 0 {
        return f;
    }
    let io = image::ino_pos(i);
    image::lemma_ino_room(d0, i);
    lemma_grab_keeps(d0, d, i, f, data);
    let (e, l) = image::grabbed(d)->0;
    assert(image::used(e, b));
    assert(same_block(d, e, b));
    lemma_add_ind(d0, e, i, f, data, l);
    let g = Parts { ind: l, ..f };
    assert(waiting(d0, e, g, b, v));
    lemma_waits(d0, e, g, b, v, io + 40, l as u32);
    g
}

proof fn lemma_have_dind(d0: Seq<u8>, d: Seq<u8>, i: int, f: Parts, data: Seq<u8>, b: int, v: Seq<u8>) -> (g:
    Parts)
    requires
        linked(d0, d, i, f, data),
        waiting(d0, d, f, b, v),
        v.len() <= BLOCK,
        image::with_list(d, f.dind, image::ino_pos(i) + 48) is Some,
    ensures
        ({
            let (e, l) = image::with_list(d, f.dind, image::ino_pos(i) + 48)->0;
            &&& linked(d0, e, i, g, data)
            &&& waiting(d0, e, g, b, v)
            &&& g == (Parts { dind: l, ..f })
            &&& l != 0
        }),
{
    if f.dind != 0 {
        return f;
    }
    let io = image::ino_pos(i);
    image::lemma_ino_room(d0, i);
    lemma_grab_keeps(d0, d, i, f, data);
    let (e, l) = image::grabbed(d)->0;
    assert(image::used(e, b));
    assert(same_block(d, e, b));
    lemma_add_dind(d0, e, i, f, data, l);
    let g = Parts { dind: l, ..f };
    assert(waiting(d0, e, g, b, v));
    lemma_waits(d0, e, g, b, v, io + 48, l as u32);
    g
}

proof fn lemma_have_l1(d0: Seq<u8>, d: Seq<u8>, i: int, f: Parts, data: Seq<u8>, b: int, v: Seq<u8>) -> (g:
    Parts)
    requires
        linked(d0, d, i, f, data),
        waiting(d0, d, f, b, v),
        v.len() <= BLOCK,
        136 <= f.p.len() < 16520,
        f.dind != 0,
        ({
            let o = f.dind * BLOCK + 4 * ((f.p.len() - 136) / 128);
            image::with_list(d, dev::word(d, o) as int, o) is Some
        }),
    ensures
        ({
            let m = (f.p.len() - 136) / 128;
            let o = f.dind * BLOCK + 4 * m;
            let (e, l) = image::with_list(d, dev::word(d, o) as int, o)->0;
            &&& linked(d0, e, i, g, data)
            &&& waiting(d0, e, g, b, v)
            &&& g.p == f.p
            &&& g.ind == f.ind
            &&& g.dind == f.dind
            &&& m < g.l.len()
            &&& g.l[m] == l
        }),
{
    let m = (f.p.len() - 136) / 128;
    let o = f.dind * BLOCK + 4 * m;
    assert(m <= f.l.len()) by {
        if f.p.len() > 136 {
            assert(f.l.len() * 128 >= f.p.len() - 136);
        }
    }
    assert(dev::word(d, f.dind * BLOCK + 4 * m) == if m < f.l.len() {
        f.l[m]
    } else {
        0
    });
    if m < f.l.len() {
        assert(taken(d0, d, f.l[m]));
        return f;
    }
    assert(taken(d0, d, f.dind));
    lemma_grab_keeps(d0, d, i, f, data);
    let (e, l) = image::grabbed(d)->0;
    assert(image::used(e, b));
    assert(same_block(d, e, b));
    lemma_add_l1(d0, e, i, f, data, l);
    let g = Parts { l: f.l.push(l), ..f };
    assert(waiting(d0, e, g, b, v)) by {
        assert forall|n: int| 0 <= n < g.l.len() implies #[trigger] g.l[n] != b by {
            if n < f.l.len() {
                assert(f.l[n] != b);
            }
        }
    }
    lemma_waits(d0, e, g, b, v, o, l as u32);
    g
}

/// A block noted becomes the file's next.
#[verifier::spinoff_prover]
proof fn lemma_noted(d0: Seq<u8>, g: Grow, i: int, f: Parts, data: Seq<u8>, b: int) -> (h: Parts)
    requires
        linked(d0, g.d, i, f, data),
        g.ind == f.ind,
        g.dind == f.dind,
        f.p.len() * BLOCK < data.len(),
        waiting(d0, g.d, f, b, image::piece(data, f.p.len() as int)),
        image::noted(g, image::ino_pos(i), f.p.len() as int, b) is Some,
    ensures
        ({
            let r = image::noted(g, image::ino_pos(i), f.p.len() as int, b)->0;
            &&& linked(d0, r.d, i, h, data)
            &&& h.ind == r.ind
            &&& h.dind == r.dind
            &&& h.p == f.p.push(b)
        }),
{
    let io = image::ino_pos(i);
    let k = f.p.len() as int;
    let v = image::piece(data, k);
    lemma_piece_len(data, k);
    if k < 8 {
        lemma_add_ptr(d0, g.d, i, f, data, b);
        Parts { p: f.p.push(b), ..f }
    } else if k < 136 {
        let f1 = lemma_have_ind(d0, g.d, i, f, data, b, v);
        let (e, l) = image::with_list(g.d, f.ind, io + 40)->0;
        lemma_add_ptr(d0, e, i, f1, data, b);
        Parts { p: f1.p.push(b), ..f1 }
    } else {
        assert((k - 136) / 128 < 128);
        assert(k < 16520);
        let f1 = lemma_have_dind(d0, g.d, i, f, data, b, v);
        let (e, l) = image::with_list(g.d, f.dind, io + 48)->0;
        let f2 = lemma_have_l1(d0, e, i, f1, data, b, v);
        let o = l * BLOCK + 4 * ((k - 136) / 128);
        let (e2, l2) = image::with_list(e, dev::word(e, o) as int, o)->0;
        assert(f2.ind != 0) by {
            assert(words(e2, io, f2));
        }
        lemma_add_ptr(d0, e2, i, f2, data, b);
        Parts { p: f2.p.push(b), ..f2 }
    }
}

/// A file that grew has all its data.
proof fn lemma_grown(d0: Seq<u8>, g: Grow, i: int, f: Parts, data: Seq<u8>) -> (h: (Seq<u8>, Parts))
    requires
        linked(d0, g.d, i, f, data),
        g.ind == f.ind,
        g.dind == f.dind,
        image::grown(g, image::ino_pos(i), data, f.p.len() as int) is Some,
    ensures
        linked(d0, h.0, i, h.1, data),
        h.1.p.len() * BLOCK >= data.len(),
        image::grown(g, image::ino_pos(i), data, f.p.len() as int) == Some(
            dev::with_word(h.0, image::ino_pos(i) + 4, data.len() as u32),
        ),
    decreases data.len() - f.p.len() * BLOCK + BLOCK,
{
    let k = f.p.len() as int;
    if k * BLOCK >= data.len() {
        (g.d, f)
    } else {
        let (e, b) = image::grabbed(g.d)->0;
        lemma_grab_keeps(d0, g.d, i, f, data);
        let v = image::piece(data, k);
        lemma_piece_len(data, k);
        let e2 = image::put(e, b * BLOCK, v);
        assert(e2.len() == SIZE);
        assert forall|x: int| 0 <= x < NBLOCKS implies #[trigger] image::used(e2, x) == image::used(e, x) by {
            assert(e2[BLOCK + x / 8] == e[BLOCK + x / 8]);
        }
        assert(e2[32] == e[32] && e2[33] == e[33] && e2[34] == e[34] && e2[35] == e[35]);
        assert forall|x: int| 0 <= x < first(e) implies #[trigger] image::used(e2, x) by {
            assert(image::used(e, x));
        }
        assert(image::wf(e2));
        lemma_untouched(d0, e, e2, i, f, data, b);
        assert(image::used(e2, b));
        assert(waiting(d0, e2, f, b, v));
        let gg = Grow { d: e2, ..g };
        let f2 = lemma_noted(d0, gg, i, f, data, b);
        let r = image::noted(gg, image::ino_pos(i), k, b)->0;
        lemma_grown(d0, r, i, f2, data)
    }
}

/// The size set at the end.
proof fn lemma_sized(d0: Seq<u8>, d: Seq<u8>, i: int, f: Parts, data: Seq<u8>, v: u32)
    requires
        linked(d0, d, i, f, data),
    ensures
        linked(d0, dev::with_word(d, image::ino_pos(i) + 4, v), i, f, data),
        image::size_of(dev::with_word(d, image::ino_pos(i) + 4, v), i) == v,
{
    let io = image::ino_pos(i);
    let o = io + 4;
    let e = dev::with_word(d, o, v);
    image::lemma_ino_room(d0, i);
    lemma_base_word(d0, d, i, o, v);
    lemma_word_put(d, o, v, io + 40);
    lemma_word_put(d, o, v, io + 48);
    assert forall|j: int| 0 <= j < f.p.len() implies taken(d0, e, #[trigger] f.p[j]) by {
        assert(taken(d0, d, f.p[j]));
    }
    assert forall|m: int| 0 <= m < f.l.len() implies taken(d0, e, #[trigger] f.l[m]) by {
        assert(taken(d0, d, f.l[m]));
    }
    assert forall|j: int| 0 <= j < f.p.len() implies dev::word(e, spot(f, io, j)) == #[trigger] f.p[j] by {
        lemma_rest_kept(d0, d, i, f, data, o, v, j);
        lemma_spot(d, io, f, j);
        if f.ind != 0 {
            assert(taken(d0, d, f.ind));
        }
        if j >= 136 {
            assert(taken(d0, d, f.l[(j - 136) / 128]));
        }
    }
    if f.dind != 0 {
        assert(taken(d0, d, f.dind));
        assert forall|m: int| 0 <= m < 128 implies #[trigger] dev::word(e, f.dind * BLOCK + 4 * m) == if m
            < f.l.len() {
            f.l[m]
        } else {
            0
        } by {
            lemma_word_put(d, o, v, f.dind * BLOCK + 4 * m);
        }
    }
    assert forall|j: int| 0 <= j < f.p.len() implies holds(e, #[trigger] f.p[j], image::piece(data, j)) by {
        lemma_rest_kept(d0, d, i, f, data, o, v, j);
        assert(taken(d0, d, f.p[j]));
    }
}

// ---- reading it back ----

/// A file with these blocks reads as this data.
pub open spec fn whole(d: Seq<u8>, i: int, f: Parts, data: Seq<u8>) -> bool {
    &&& d.len() == SIZE
    &&& 1 <= i
    &&& image::ino_pos(i) + INO_SIZE <= SIZE
    &&& forall|j: int| 0 <= j < f.p.len() ==> 3 <= #[trigger] f.p[j] < NBLOCKS
    &&& forall|m: int| 0 <= m < f.l.len() ==> 3 <= #[trigger] f.l[m] < NBLOCKS
    &&& f.ind != 0 ==> 3 <= f.ind < NBLOCKS
    &&& f.dind != 0 ==> 3 <= f.dind < NBLOCKS
    &&& words(d, image::ino_pos(i), f)
    &&& pieces(d, f, data)
    &&& f.p.len() <= 16520
    &&& (f.p.len() - 1) * BLOCK < data.len() || f.p.len() == 0
    &&& f.p.len() * BLOCK >= data.len()
    &&& image::size_of(d, i) == data.len()
}

/// The bytes of the first `k` blocks.
pub open spec fn upto(data: Seq<u8>, k: int) -> Seq<u8> {
    data.take(image::low(k * BLOCK, data.len() as int))
}

/// Reading block `k` adds its piece.
pub proof fn lemma_more(d: Seq<u8>, i: int, f: Parts, data: Seq<u8>, k: int)
    requires
        whole(d, i, f, data),
        0 <= k,
        k * BLOCK < data.len(),
    ensures
        k < f.p.len(),
        3 <= f.p[k] < NBLOCKS,
        dev::word(d, spot(f, image::ino_pos(i), k)) == f.p[k],
        image::more(d, f.p[k], data.len() as int, upto(data, k)) == upto(data, k + 1),
        upto(data, k).len() == k * BLOCK,
{
    assert(k < f.p.len());
    let b = f.p[k];
    let v = image::piece(data, k);
    assert(holds(d, b, v));
    lemma_piece_len(data, k);
    let n = image::low(BLOCK as int, data.len() - k * BLOCK);
    assert(d.subrange(b * BLOCK, b * BLOCK + n) =~= v) by {
        assert forall|x: int| 0 <= x < n implies d.subrange(b * BLOCK, b * BLOCK + n)[x] == v[x] by {
            assert(d[b * BLOCK + x] == v[x]);
        }
    }
    assert(upto(data, k) + v =~= upto(data, k + 1));
}

proof fn lemma_own(d: Seq<u8>, i: int, f: Parts, data: Seq<u8>, k: int)
    requires
        whole(d, i, f, data),
        0 <= k <= 8,
    ensures
        image::own_part(d, image::ino_pos(i), data.len() as int, k, upto(data, k)) == upto(data, 8),
        image::own_ok(d, image::ino_pos(i), data.len() as int, k, upto(data, k).len() as int),
    decreases 8 - k,
{
    if k < 8 {
        lemma_own(d, i, f, data, k + 1);
        if k * BLOCK < data.len() {
            lemma_more(d, i, f, data, k);
        } else {
            assert(upto(data, k) =~= upto(data, 8));
        }
    }
}

proof fn lemma_listed(d: Seq<u8>, i: int, f: Parts, data: Seq<u8>, k: int)
    requires
        whole(d, i, f, data),
        0 <= k <= 128,
    ensures
        ({
            let l = dev::word(d, image::ino_pos(i) + 40) as int;
            &&& image::list_part(d, l, data.len() as int, k, upto(data, 8 + k)) == upto(data, 136)
            &&& image::list_ok(d, l, data.len() as int, k, upto(data, 8 + k).len() as int)
        }),
    decreases 128 - k,
{
    if k < 128 {
        lemma_listed(d, i, f, data, k + 1);
        if (8 + k) * BLOCK < data.len() {
            lemma_more(d, i, f, data, 8 + k);
        } else {
            assert(upto(data, 8 + k) =~= upto(data, 136));
        }
    }
}

proof fn lemma_deep(d: Seq<u8>, i: int, f: Parts, data: Seq<u8>, k: int)
    requires
        whole(d, i, f, data),
        0 <= k <= 16384,
    ensures
        ({
            let top = dev::word(d, image::ino_pos(i) + 48) as int;
            &&& image::deep_part(d, top, data.len() as int, k, upto(data, 136 + k)) == data
            &&& image::deep_ok(d, top, data.len() as int, k, upto(data, 136 + k).len() as int)
        }),
    decreases 16384 - k,
{
    if (136 + k) * BLOCK < data.len() {
        lemma_more(d, i, f, data, 136 + k);
        assert(k < 16384);
        lemma_deep(d, i, f, data, k + 1);
        lemma_spot(d, image::ino_pos(i), f, 136 + k);
        let m = k / 128;
        assert(3 <= f.l[m] < NBLOCKS);
        assert(dev::word(d, f.dind * BLOCK + 4 * m) == f.l[m]);
    } else {
        assert(upto(data, 136 + k) =~= data);
    }
}

/// A whole file reads as its data.
pub proof fn lemma_content(d: Seq<u8>, i: int, f: Parts, data: Seq<u8>)
    requires
        whole(d, i, f, data),
    ensures
        image::content(d, i) == data,
        image::file_ok(d, i),
{
    let io = image::ino_pos(i);
    assert(upto(data, 0) =~= Seq::empty());
    lemma_own(d, i, f, data, 0);
    lemma_listed(d, i, f, data, 0);
    lemma_deep(d, i, f, data, 0);
    if data.len() > 8 * BLOCK {
        lemma_more(d, i, f, data, 8);
    }
    if data.len() > 136 * BLOCK {
        lemma_more(d, i, f, data, 136);
    }
}

/// A change elsewhere keeps what a file reads as.
pub proof fn lemma_whole_kept(d: Seq<u8>, e: Seq<u8>, i: int, f: Parts, data: Seq<u8>)
    requires
        whole(d, i, f, data),
        e.len() == SIZE,
        same_bytes(d, e, image::ino_pos(i), INO_SIZE as int),
        forall|j: int| 0 <= j < f.p.len() ==> same_block(d, e, #[trigger] f.p[j]),
        forall|m: int| 0 <= m < f.l.len() ==> same_block(d, e, #[trigger] f.l[m]),
        f.ind != 0 ==> same_block(d, e, f.ind),
        f.dind != 0 ==> same_block(d, e, f.dind),
    ensures
        whole(e, i, f, data),
{
    let io = image::ino_pos(i);
    lemma_word_same(d, e, io + 4);
    lemma_word_same(d, e, io + 40);
    lemma_word_same(d, e, io + 48);
    if f.dind != 0 {
        assert forall|m: int| 0 <= m < 128 implies #[trigger] dev::word(e, f.dind * BLOCK + 4 * m) == if m
            < f.l.len() {
            f.l[m]
        } else {
            0
        } by {
            lemma_word_same(d, e, f.dind * BLOCK + 4 * m);
        }
    }
    assert forall|j: int| 0 <= j < f.p.len() implies dev::word(e, spot(f, io, j)) == #[trigger] f.p[j] by {
        lemma_spot(d, io, f, j);
        if j >= 136 {
            assert(same_block(d, e, f.l[(j - 136) / 128]));
        }
        lemma_word_same(d, e, spot(f, io, j));
    }
    assert forall|j: int| 0 <= j < f.p.len() implies holds(e, #[trigger] f.p[j], image::piece(data, j)) by {
        assert(same_block(d, e, f.p[j]));
        assert(holds(d, f.p[j], image::piece(data, j)));
        lemma_piece_len(data, j);
    }
}

// ---- directories ----

/// A name that an entry can hold: not empty, no longer than an entry's, and
/// without a zero.
pub open spec fn name_ok(name: Seq<u8>) -> bool {
    &&& 0 < name.len() <= NAME_LEN
    &&& forall|k: int| 0 <= k < name.len() ==> #[trigger] name[k] != 0
}

/// Block `s` of a directory.
pub open spec fn dir_block(d: Seq<u8>, i: int, s: int) -> int {
    dev::word(d, image::ino_pos(i) + 8 + 4 * s) as int
}

/// An entry with no name holds zeros.
pub open spec fn clean(d: Seq<u8>, o: int) -> bool {
    d[o] == 0 ==> forall|k: int| 0 <= k < NAME_LEN ==> #[trigger] d[o + k] == 0
}

/// A directory in order: whole blocks of its own for data, all different, and
/// no rests in unused entries.
pub open spec fn tidy(d: Seq<u8>, i: int) -> bool {
    &&& image::wf(d)
    &&& image::is_ino(d, i)
    &&& image::kind_of(d, i) == KIND_DIR
    &&& image::size_of(d, i) <= MAX_DIR
    &&& image::ent_count(d, i) % 16 == 0
    &&& forall|s: int|
        0 <= s < image::ent_count(d, i) / 16 ==> first(d) <= #[trigger] dir_block(d, i, s) < JLBA
            && image::used(d, dir_block(d, i, s))
    &&& forall|s: int, t: int|
        0 <= s < t < image::ent_count(d, i) / 16 ==> #[trigger] dir_block(d, i, s) != #[trigger] dir_block(d, i, t)
    &&& forall|x: int| 0 <= x < image::ent_count(d, i) ==> clean(d, #[trigger] image::ent_pos(d, i, x))
}

/// Where an entry of a directory in order lies.
pub proof fn lemma_ent(d: Seq<u8>, i: int, x: int)
    requires
        tidy(d, i),
        0 <= x < image::ent_count(d, i),
    ensures
        image::ent_block(d, i, x) == dir_block(d, i, x / 16),
        first(d) <= dir_block(d, i, x / 16) < JLBA,
        image::used(d, dir_block(d, i, x / 16)),
        dir_block(d, i, x / 16) * BLOCK <= image::ent_pos(d, i, x),
        image::ent_pos(d, i, x) + 32 <= dir_block(d, i, x / 16) * BLOCK + BLOCK,
        clean(d, image::ent_pos(d, i, x)),
{
    let s = x / 16;
    assert(0 <= s < image::ent_count(d, i) / 16);
    assert(dir_block(d, i, s) >= first(d));
}

/// Entries lie apart.
proof fn lemma_ents_apart(d: Seq<u8>, i: int, x: int, y: int)
    requires
        tidy(d, i),
        0 <= x < image::ent_count(d, i),
        0 <= y < image::ent_count(d, i),
        x != y,
    ensures
        image::ent_pos(d, i, x) + 32 <= image::ent_pos(d, i, y) || image::ent_pos(d, i, y) + 32
            <= image::ent_pos(d, i, x),
{
    lemma_ent(d, i, x);
    lemma_ent(d, i, y);
    let s = x / 16;
    let t = y / 16;
    if s < t {
        assert(dir_block(d, i, s) != dir_block(d, i, t));
    } else if t < s {
        assert(dir_block(d, i, t) != dir_block(d, i, s));
    }
}

proof fn lemma_name_same(d: Seq<u8>, e: Seq<u8>, o: int, k: int)
    requires
        same_bytes(d, e, o, NAME_LEN as int),
        0 <= k <= NAME_LEN,
    ensures
        image::name_end(e, o, k) == image::name_end(d, o, k),
    decreases NAME_LEN - k,
{
    if k < NAME_LEN {
        assert(e[o + k] == d[o + k]);
        lemma_name_same(d, e, o, k + 1);
    }
}

proof fn lemma_name_at(d: Seq<u8>, e: Seq<u8>, o: int)
    requires
        same_bytes(d, e, o, NAME_LEN as int),
        0 <= o,
        o + NAME_LEN <= d.len(),
        o + NAME_LEN <= e.len(),
    ensures
        image::name_at(e, o) == image::name_at(d, o),
{
    lemma_name_same(d, e, o, 0);
    image::lemma_name_end(d, o, 0);
    assert(image::name_at(e, o) =~= image::name_at(d, o));
}

proof fn lemma_name_len(d: Seq<u8>, o: int, name: Seq<u8>, k: int)
    requires
        name_ok(name),
        0 <= k <= name.len(),
        forall|x: int| 0 <= x < name.len() ==> d[o + x] == #[trigger] name[x],
        name.len() < NAME_LEN ==> d[o + name.len()] == 0,
    ensures
        image::name_end(d, o, k) == name.len(),
    decreases name.len() - k,
{
    if k < name.len() {
        assert(d[o + k] == name[k]);
        lemma_name_len(d, o, name, k + 1);
    }
}

/// An entry written to an unused place has its name and number, and nothing
/// else changed.
proof fn lemma_ent_put(d: Seq<u8>, o: int, name: Seq<u8>, c: int)
    requires
        d.len() == SIZE,
        0 <= o,
        o + 32 <= SIZE,
        name_ok(name),
        forall|k: int| 0 <= k < NAME_LEN ==> #[trigger] d[o + k] == 0,
        0 <= c <= u32::MAX,
    ensures
        ({
            let e = image::ent_put(d, o, name, c);
            &&& e.len() == SIZE
            &&& image::name_at(e, o) == name
            &&& dev::word(e, o + NAME_LEN) == c
            &&& e[o] != 0
            &&& forall|j: int| 0 <= j < SIZE && !(o <= j < o + 32) ==> #[trigger] e[j] == d[j]
        }),
{
    let a = image::put(d, o, name);
    let e = image::ent_put(d, o, name, c);
    dev::law_word_stored(a, o + NAME_LEN, c as u32, o + NAME_LEN);
    assert forall|x: int| 0 <= x < name.len() implies e[o + x] == #[trigger] name[x] by {
        assert(a[o + x] == name[x]);
    }
    if name.len() < NAME_LEN {
        let k = name.len() as int;
        assert(d[o + k] == 0);
        assert(a[o + k] == 0);
    }
    lemma_name_len(e, o, name, 0);
    assert(image::name_at(e, o) =~= name);
    assert(e[o] == name[0]);
}

pub open spec fn matches_at(d: Seq<u8>, i: int, name: Seq<u8>, x: int) -> bool {
    image::ent_block(d, i, x) != 0 && image::name_at(d, image::ent_pos(d, i, x)) == name
}

/// No entry before the one that is found has the name.
pub proof fn lemma_find(d: Seq<u8>, i: int, name: Seq<u8>, x: int)
    requires
        0 <= x,
    ensures
        match image::find(d, i, name, x) {
            None => forall|y: int|
                x <= y < image::ent_count(d, i) ==> !#[trigger] matches_at(d, i, name, y),
            Some(u) => x <= u < image::ent_count(d, i) && matches_at(d, i, name, u),
        },
    decreases image::ent_count(d, i) - x,
{
    if x < image::ent_count(d, i) && !matches_at(d, i, name, x) {
        lemma_find(d, i, name, x + 1);
    }
}

pub proof fn lemma_found(d: Seq<u8>, i: int, name: Seq<u8>, x: int, u: int)
    requires
        0 <= x <= u < image::ent_count(d, i),
        forall|y: int| x <= y < u ==> !#[trigger] matches_at(d, i, name, y),
        matches_at(d, i, name, u),
    ensures
        image::find(d, i, name, x) == Some(u),
    decreases u - x,
{
    if x < u {
        assert(!matches_at(d, i, name, x));
        lemma_found(d, i, name, x + 1, u);
    }
}

/// A place with no name is unused, and the search ends at the first.
proof fn lemma_unused(d: Seq<u8>, i: int, x: int)
    requires
        tidy(d, i),
        0 <= x <= image::ent_count(d, i),
    ensures
        x <= image::unused(d, i, x) <= image::ent_count(d, i),
        image::unused(d, i, x) < image::ent_count(d, i) ==> d[image::ent_pos(
            d,
            i,
            image::unused(d, i, x),
        )] == 0,
    decreases image::ent_count(d, i) - x,
{
    if x < image::ent_count(d, i) {
        lemma_ent(d, i, x);
        if d[image::ent_pos(d, i, x)] != 0 {
            lemma_unused(d, i, x + 1);
        }
    }
}

/// A block of a directory.
pub open spec fn in_dir(d: Seq<u8>, i: int, b: int) -> bool {
    exists|s: int| 0 <= s < image::ent_count(d, i) / 16 && #[trigger] dir_block(d, i, s) == b
}

/// A change to one directory alone: what was in use and is not that
/// directory's stays as it was.
pub open spec fn only_dir(d: Seq<u8>, e: Seq<u8>, i: int) -> bool {
    &&& image::wf(e)
    &&& image::ninodes(e) == image::ninodes(d)
    &&& same_bytes(d, e, 0, BLOCK as int)
    &&& same_bytes(d, e, 3 * BLOCK, image::ino_pos(i) - 3 * BLOCK)
    &&& same_bytes(
        d,
        e,
        image::ino_pos(i) + INO_SIZE,
        first(d) * BLOCK - image::ino_pos(i) - INO_SIZE,
    )
    &&& forall|x: int| 0 <= x < NBLOCKS && image::used(d, x) ==> #[trigger] image::used(e, x)
    &&& forall|x: int|
        first(d) <= x < NBLOCKS && #[trigger] image::used(d, x) && !in_dir(d, i, x) ==> same_block(d, e, x)
}

/// An entry in an unused place.
#[verifier::spinoff_prover]
#[verifier::rlimit(40)]
proof fn lemma_entered_old(d: Seq<u8>, i: int, name: Seq<u8>, c: int)
    requires
        tidy(d, i),
        name_ok(name),
        0 <= c <= u32::MAX,
        image::find(d, i, name, 0) is None,
        image::unused(d, i, 0) < image::ent_count(d, i),
    ensures
        ({
            let g = image::ent_put(d, image::ent_pos(d, i, image::unused(d, i, 0)), name, c);
            &&& tidy(g, i)
            &&& image::looked_up(g, i, name) == Some(c as u32)
            &&& only_dir(d, g, i)
        }),
{
    let u = image::unused(d, i, 0);
    let o = image::ent_pos(d, i, u);
    let io = image::ino_pos(i);
    let n = image::ent_count(d, i);
    let g = image::ent_put(d, o, name, c);
    image::lemma_ino_room(d, i);
    lemma_unused(d, i, 0);
    lemma_ent(d, i, u);
    lemma_ent_put(d, o, name, c);
    let b = dir_block(d, i, u / 16);
    assert(forall|j: int| 0 <= j < first(d) * BLOCK ==> #[trigger] g[j] == d[j]);
    assert(g[32] == d[32] && g[33] == d[33] && g[34] == d[34] && g[35] == d[35]);
    assert forall|x: int| 0 <= x < NBLOCKS implies #[trigger] image::used(g, x) == image::used(d, x) by {
        assert(g[BLOCK + x / 8] == d[BLOCK + x / 8]);
    }
    assert(image::wf(g)) by {
        assert forall|x: int| 0 <= x < first(d) implies #[trigger] image::used(g, x) by {
            assert(image::used(d, x));
        }
    }
    lemma_word_same(d, g, io + 4);
    assert(image::kind_of(g, i) == image::kind_of(d, i));
    assert forall|s: int| 0 <= s < 8 implies #[trigger] dir_block(g, i, s) == dir_block(d, i, s) by {
        lemma_word_same(d, g, io + 8 + 4 * s);
    }
    assert forall|x: int| 0 <= x < n implies #[trigger] image::ent_pos(g, i, x) == image::ent_pos(d, i, x)
        && image::ent_block(g, i, x) == image::ent_block(d, i, x) by {
        let s = x / 16;
        assert(dir_block(g, i, s) == dir_block(d, i, s));
    }
    assert forall|s: int| 0 <= s < n / 16 implies first(g) <= #[trigger] dir_block(g, i, s) < JLBA
        && image::used(g, dir_block(g, i, s)) by {
        assert(dir_block(d, i, s) >= first(d));
    }
    assert forall|s: int, t: int| 0 <= s < t < n / 16 implies #[trigger] dir_block(g, i, s)
        != #[trigger] dir_block(g, i, t) by {
        assert(dir_block(d, i, s) != dir_block(d, i, t));
    }
    assert forall|x: int| 0 <= x < n implies clean(g, #[trigger] image::ent_pos(g, i, x)) by {
        assert(image::ent_pos(g, i, x) == image::ent_pos(d, i, x));
        lemma_ent(d, i, x);
        if x != u {
            lemma_ents_apart(d, i, x, u);
            let q = image::ent_pos(d, i, x);
            assert forall|k: int| 0 <= k < NAME_LEN implies #[trigger] g[q + k] == d[q + k] by {}
        }
    }
    assert(tidy(g, i));
    lemma_find(d, i, name, 0);
    assert forall|y: int| 0 <= y < u implies !#[trigger] matches_at(g, i, name, y) by {
        assert(!matches_at(d, i, name, y));
        assert(image::ent_pos(g, i, y) == image::ent_pos(d, i, y));
        lemma_ent(d, i, y);
        lemma_ents_apart(d, i, y, u);
        lemma_name_at(d, g, image::ent_pos(d, i, y));
    }
    assert(image::ent_pos(g, i, u) == o);
    assert(matches_at(g, i, name, u));
    lemma_found(g, i, name, 0, u);
    assert forall|x: int|
        first(d) <= x < NBLOCKS && #[trigger] image::used(d, x) && !in_dir(d, i, x) implies same_block(
        d,
        g,
        x,
    ) by {
        assert(x != b) by {
            if x == b {
                assert(dir_block(d, i, u / 16) == x);
                assert(in_dir(d, i, x));
            }
        }
    }
}

/// A directory with one more block, which is empty.
pub open spec fn extended(d: Seq<u8>, i: int, b: int) -> Seq<u8> {
    let n = image::ent_count(d, i);
    let io = image::ino_pos(i);
    dev::with_word(
        dev::with_word(d, io + 8 + 4 * (n / 16), b as u32),
        io + 4,
        (n * 32 + BLOCK) as u32,
    )
}

#[verifier::spinoff_prover]
#[verifier::rlimit(60)]
proof fn lemma_extended(d: Seq<u8>, i: int)
    requires
        tidy(d, i),
        image::ent_count(d, i) / 16 < 8,
        image::grabbed(d) is Some,
    ensures
        ({
            let (f, b) = image::grabbed(d)->0;
            let g = extended(f, i, b);
            let n = image::ent_count(d, i);
            &&& image::ent_count(f, i) == n
            &&& tidy(g, i)
            &&& image::ent_count(g, i) == n + 16
            &&& image::ent_pos(g, i, n) == b * BLOCK
            &&& forall|x: int| 0 <= x < n ==> #[trigger] image::ent_pos(g, i, x) == image::ent_pos(d, i, x)
            &&& forall|x: int| 0 <= x < n ==> #[trigger] image::ent_block(g, i, x) == image::ent_block(d, i, x)
            &&& forall|j: int| b * BLOCK <= j < b * BLOCK + BLOCK ==> #[trigger] g[j] == 0
            &&& first(d) <= b < JLBA
            &&& !image::used(d, b)
            &&& only_dir(d, g, i)
            &&& forall|x: int|
                first(d) <= x < NBLOCKS && #[trigger] image::used(d, x) ==> same_block(d, g, x)
        }),
{
    let (f, b) = image::grabbed(d)->0;
    let n = image::ent_count(d, i);
    let io = image::ino_pos(i);
    lemma_grab(d);
    image::lemma_ino_room(d, i);
    lemma_word_same(d, f, io + 4);
    let k = n / 16;
    let a = dev::with_word(f, io + 8 + 4 * k, b as u32);
    let size = (n * 32 + BLOCK) as u32;
    let g = extended(f, i, b);
    assert(g == dev::with_word(a, io + 4, size));
    assert(n * 32 + BLOCK <= 4096);
    dev::law_word_stored(f, io + 8 + 4 * k, b as u32, io + 8 + 4 * k);
    dev::law_word_stored(a, io + 4, size, io + 4);
    lemma_word_put(a, io + 4, size, io + 8 + 4 * k);
    assert(forall|j: int| 0 <= j < SIZE && !(io <= j < io + INO_SIZE) ==> #[trigger] g[j] == f[j]);
    assert(g[io] == f[io]);
    assert(f[io] == d[io]);
    assert(g[32] == d[32] && g[33] == d[33] && g[34] == d[34] && g[35] == d[35]);
    assert forall|x: int| 0 <= x < NBLOCKS implies #[trigger] image::used(g, x) == (x == b || image::used(d, x)) by {
        assert(g[BLOCK + x / 8] == f[BLOCK + x / 8]);
        assert(image::used(f, x) == (x == b || image::used(d, x)));
    }
    assert(image::wf(g)) by {
        assert forall|x: int| 0 <= x < first(d) implies #[trigger] image::used(g, x) by {
            assert(image::used(d, x));
        }
    }
    assert(image::size_of(g, i) == size);
    assert(image::ent_count(g, i) == n + 16);
    assert forall|s: int| 0 <= s < 8 implies #[trigger] dir_block(g, i, s) == if s == k {
        b
    } else {
        dir_block(d, i, s)
    } by {
        let q = io + 8 + 4 * s;
        if s != k {
            lemma_word_same(d, f, q);
            lemma_word_put(f, io + 8 + 4 * k, b as u32, q);
            lemma_word_put(a, io + 4, size, q);
        }
    }
    assert forall|x: int| 0 <= x < n implies #[trigger] image::ent_pos(g, i, x) == image::ent_pos(d, i, x) by {
        assert(x / 16 < k);
        assert(dir_block(g, i, x / 16) == dir_block(d, i, x / 16));
    }
    assert forall|x: int| 0 <= x < n implies #[trigger] image::ent_block(g, i, x) == image::ent_block(d, i, x) by {
        assert(x / 16 < k);
        assert(dir_block(g, i, x / 16) == dir_block(d, i, x / 16));
    }
    assert forall|x: int| n <= x < n + 16 implies #[trigger] image::ent_pos(g, i, x) == b * BLOCK + (x - n) * 32 by {
        assert(x / 16 == k);
        assert(dir_block(g, i, k) == b);
    }
    assert forall|s: int| 0 <= s < k + 1 implies first(g) <= #[trigger] dir_block(g, i, s) < JLBA
        && image::used(g, dir_block(g, i, s)) by {
        if s < k {
            assert(first(d) <= dir_block(d, i, s) < JLBA);
        }
    }
    assert forall|s: int, t: int| 0 <= s < t < k + 1 implies #[trigger] dir_block(g, i, s)
        != #[trigger] dir_block(g, i, t) by {
        if t < k {
            assert(dir_block(d, i, s) != dir_block(d, i, t));
        } else {
            assert(image::used(d, dir_block(d, i, s)));
        }
    }
    assert forall|x: int|
        first(d) <= x < NBLOCKS && #[trigger] image::used(d, x) implies same_block(d, g, x) by {
        assert(x != b);
        assert forall|j: int| x * BLOCK <= j < x * BLOCK + BLOCK implies #[trigger] g[j] == d[j] by {
            assert(g[j] == f[j]);
        }
    }
    assert forall|x: int| 0 <= x < n + 16 implies clean(g, #[trigger] image::ent_pos(g, i, x)) by {
        if x < n {
            lemma_ent(d, i, x);
            assert(same_block(d, g, dir_block(d, i, x / 16)));
            let q = image::ent_pos(d, i, x);
            assert(image::ent_pos(g, i, x) == q);
            assert(g[q] == d[q]);
            assert forall|m: int| 0 <= m < NAME_LEN implies #[trigger] g[q + m] == d[q + m] by {}
        } else {
            let q = image::ent_pos(g, i, x);
            assert forall|m: int| 0 <= m < NAME_LEN implies #[trigger] g[q + m] == 0 by {
                assert(f[q + m] == 0);
            }
        }
    }
    assert forall|j: int| b * BLOCK <= j < b * BLOCK + BLOCK implies #[trigger] g[j] == 0 by {
        assert(f[j] == 0);
    }
    assert(image::ent_pos(g, i, n) == b * BLOCK + (n - n) * 32);
    assert forall|j: int| 0 <= j < BLOCK implies #[trigger] g[j] == d[j] by {
        assert(g[j] == f[j]);
    }
    assert forall|j: int| 3 * BLOCK <= j < io implies #[trigger] g[j] == d[j] by {
        assert(g[j] == f[j]);
    }
    assert forall|j: int| io + INO_SIZE <= j < first(d) * BLOCK implies #[trigger] g[j] == d[j] by {
        assert(g[j] == f[j]);
    }
}

proof fn lemma_all_named(d: Seq<u8>, i: int, x: int, y: int)
    requires
        tidy(d, i),
        0 <= x <= y < image::unused(d, i, x),
        x <= image::ent_count(d, i),
    ensures
        d[image::ent_pos(d, i, y)] != 0,
    decreases y - x,
{
    lemma_unused(d, i, x);
    if x < image::ent_count(d, i) {
        lemma_ent(d, i, x);
    }
    if x < y {
        lemma_all_named(d, i, x + 1, y);
    }
}

proof fn lemma_unused_at(d: Seq<u8>, i: int, x: int, u: int)
    requires
        tidy(d, i),
        0 <= x <= u < image::ent_count(d, i),
        forall|y: int| x <= y < u ==> d[#[trigger] image::ent_pos(d, i, y)] != 0,
        d[image::ent_pos(d, i, u)] == 0,
    ensures
        image::unused(d, i, x) == u,
    decreases u - x,
{
    lemma_ent(d, i, x);
    if x < u {
        assert(d[image::ent_pos(d, i, x)] != 0);
        lemma_unused_at(d, i, x + 1, u);
    }
}

/// A block more changes nothing of what names a directory has.
#[verifier::spinoff_prover]
#[verifier::rlimit(40)]
proof fn lemma_extended_names(d: Seq<u8>, i: int, name: Seq<u8>)
    requires
        tidy(d, i),
        name_ok(name),
        image::ent_count(d, i) / 16 < 8,
        image::unused(d, i, 0) == image::ent_count(d, i),
        image::grabbed(d) is Some,
    ensures
        ({
            let (f, b) = image::grabbed(d)->0;
            let h = extended(f, i, b);
            &&& image::unused(h, i, 0) == image::ent_count(d, i)
            &&& image::find(h, i, name, 0) == image::find(d, i, name, 0)
            &&& image::looked_up(h, i, name) == image::looked_up(d, i, name)
        }),
{
    let n = image::ent_count(d, i);
    lemma_extended(d, i);
    let (f, b) = image::grabbed(d)->0;
    let h = extended(f, i, b);
    assert forall|y: int| 0 <= y < n implies h[#[trigger] image::ent_pos(h, i, y)] != 0 by {
        lemma_all_named(d, i, 0, y);
        lemma_ent(d, i, y);
        assert(same_block(d, h, dir_block(d, i, y / 16)));
    }
    assert(h[image::ent_pos(h, i, n)] == 0);
    lemma_unused_at(h, i, 0, n);
    assert forall|y: int| 0 <= y < n + 16 implies #[trigger] matches_at(h, i, name, y) == (y < n && matches_at(
        d,
        i,
        name,
        y,
    )) by {
        lemma_ent(h, i, y);
        if y < n {
            lemma_ent(d, i, y);
            assert(same_block(d, h, dir_block(d, i, y / 16)));
            assert(image::ent_pos(h, i, y) == image::ent_pos(d, i, y));
            lemma_name_at(d, h, image::ent_pos(d, i, y));
            assert(image::ent_block(h, i, y) == image::ent_block(d, i, y));
        } else {
            let o = image::ent_pos(h, i, y);
            assert(y / 16 == n / 16);
            assert(image::ent_block(h, i, y) == image::ent_block(h, i, n));
            assert(h[o] == 0);
            assert(image::name_at(h, o).len() == 0);
        }
    }
    lemma_find_more(d, h, i, name, 0);
    lemma_find(d, i, name, 0);
    if let Some(v) = image::find(d, i, name, 0) {
        lemma_ent(d, i, v);
        assert(same_block(d, h, dir_block(d, i, v / 16)));
        assert(image::ent_pos(h, i, v) == image::ent_pos(d, i, v));
        lemma_word_same(d, h, image::ent_pos(d, i, v) + NAME_LEN);
    }
}

proof fn lemma_find_more(d: Seq<u8>, e: Seq<u8>, i: int, name: Seq<u8>, x: int)
    requires
        0 <= x,
        image::ent_count(e, i) >= image::ent_count(d, i),
        forall|y: int|
            0 <= y < image::ent_count(e, i) ==> #[trigger] matches_at(e, i, name, y) == (y < image::ent_count(
                d,
                i,
            ) && matches_at(d, i, name, y)),
    ensures
        image::find(e, i, name, x) == image::find(d, i, name, x),
    decreases image::ent_count(e, i) - x,
{
    if x < image::ent_count(e, i) {
        assert(matches_at(e, i, name, x) == (x < image::ent_count(d, i) && matches_at(d, i, name, x)));
        lemma_find_more(d, e, i, name, x + 1);
    }
}

/// An entry stored outside the table leaves a directory its blocks.
proof fn lemma_put_dir(d: Seq<u8>, g: Seq<u8>, i: int, o: int)
    requires
        tidy(d, i),
        first(d) * BLOCK <= o,
        g.len() == d.len(),
        forall|j: int| 0 <= j < d.len() && !(o <= j < o + 32) ==> #[trigger] g[j] == d[j],
    ensures
        forall|x: int| #[trigger] in_dir(g, i, x) ==> in_dir(d, i, x),
{
    let io = image::ino_pos(i);
    image::lemma_ino_room(d, i);
    lemma_word_same(d, g, io + 4);
    assert forall|x: int| #[trigger] in_dir(g, i, x) implies in_dir(d, i, x) by {
        let s = choose|s: int| 0 <= s < image::ent_count(g, i) / 16 && #[trigger] dir_block(g, i, s) == x;
        lemma_word_same(d, g, io + 8 + 4 * s);
        assert(dir_block(d, i, s) == x);
    }
}

/// An entry added is found, and nothing but the directory changes.
#[verifier::spinoff_prover]
#[verifier::rlimit(40)]
proof fn lemma_entered(d: Seq<u8>, i: int, name: Seq<u8>, c: int)
    requires
        tidy(d, i),
        name_ok(name),
        0 <= c <= u32::MAX,
        image::find(d, i, name, 0) is None,
        image::entered(d, i, name, c) is Some,
    ensures
        ({
            let g = image::entered(d, i, name, c)->0;
            &&& tidy(g, i)
            &&& image::looked_up(g, i, name) == Some(c as u32)
            &&& only_dir(d, g, i)
            &&& forall|x: int| #[trigger] in_dir(g, i, x) ==> in_dir(d, i, x) || !image::used(d, x)
        }),
{
    let n = image::ent_count(d, i);
    let u = image::unused(d, i, 0);
    lemma_unused(d, i, 0);
    if u < n {
        lemma_ent(d, i, u);
        lemma_entered_old(d, i, name, c);
        let o = image::ent_pos(d, i, u);
        image::lemma_ino_room(d, i);
        lemma_ent_put(d, o, name, c);
        lemma_put_dir(d, image::entered(d, i, name, c)->0, i, o);
    } else {
        lemma_extended(d, i);
        let (f, b) = image::grabbed(d)->0;
        let h = extended(f, i, b);
        lemma_extended_names(d, i, name);
        lemma_entered_old(h, i, name, c);
        let g = image::entered(d, i, name, c)->0;
        assert(g == image::ent_put(h, b * BLOCK, name, c));
        assert(n % 16 == 0);
        image::lemma_ino_room(d, i);
        assert forall|x: int|
            first(d) <= x < NBLOCKS && #[trigger] image::used(d, x) && !in_dir(d, i, x) implies same_block(
            d,
            g,
            x,
        ) by {
            assert(image::used(h, x));
            assert(same_block(d, h, x));
            assert(!in_dir(h, i, x)) by {
                if in_dir(h, i, x) {
                    let s = choose|s: int|
                        0 <= s < image::ent_count(h, i) / 16 && #[trigger] dir_block(h, i, s) == x;
                    if s < n / 16 {
                        assert(image::ent_block(h, i, s * 16) == image::ent_block(d, i, s * 16));
                        assert(dir_block(d, i, s) == x);
                    } else {
                        assert(image::ent_pos(h, i, n) == b * BLOCK);
                        assert(x == b);
                    }
                }
            }
            assert(same_block(h, g, x));
        }
        assert forall|j: int| 0 <= j < BLOCK implies #[trigger] g[j] == d[j] by {
            assert(g[j] == h[j]);
        }
        let io = image::ino_pos(i);
        lemma_ent_put(h, b * BLOCK, name, c);
        lemma_put_dir(h, g, i, b * BLOCK);
        assert forall|x: int| #[trigger] in_dir(g, i, x) implies in_dir(d, i, x) || !image::used(d, x) by {
            assert(in_dir(h, i, x));
            let s = choose|s: int| 0 <= s < image::ent_count(h, i) / 16 && #[trigger] dir_block(h, i, s) == x;
            if s < n / 16 {
                assert(image::ent_block(h, i, s * 16) == image::ent_block(d, i, s * 16));
                assert(dir_block(d, i, s) == x);
            } else {
                assert(image::ent_pos(h, i, n) == b * BLOCK);
                assert(x == b);
            }
        }
        assert forall|j: int| 3 * BLOCK <= j < io implies #[trigger] g[j] == d[j] by {
            assert(g[j] == h[j]);
        }
        assert forall|j: int| io + INO_SIZE <= j < first(d) * BLOCK implies #[trigger] g[j] == d[j] by {
            assert(g[j] == h[j]);
        }
    }
}

/// A change elsewhere keeps a directory.
#[verifier::spinoff_prover]
proof fn lemma_dir_kept(d: Seq<u8>, e: Seq<u8>, i: int, name: Seq<u8>)
    requires
        tidy(d, i),
        image::wf(e),
        image::ninodes(e) == image::ninodes(d),
        same_bytes(d, e, image::ino_pos(i), INO_SIZE as int),
        forall|x: int| 0 <= x < NBLOCKS && image::used(d, x) ==> #[trigger] image::used(e, x),
        forall|x: int| #[trigger] in_dir(d, i, x) ==> same_block(d, e, x),
    ensures
        tidy(e, i),
        image::looked_up(e, i, name) == image::looked_up(d, i, name),
        image::find(e, i, name, 0) == image::find(d, i, name, 0),
        forall|x: int| in_dir(e, i, x) == #[trigger] in_dir(d, i, x),
{
    let io = image::ino_pos(i);
    let n = image::ent_count(d, i);
    image::lemma_ino_room(d, i);
    assert(e[io] == d[io]);
    lemma_word_same(d, e, io + 4);
    assert forall|s: int| 0 <= s < 8 implies #[trigger] dir_block(e, i, s) == dir_block(d, i, s) by {
        lemma_word_same(d, e, io + 8 + 4 * s);
    }
    assert forall|x: int| in_dir(e, i, x) == #[trigger] in_dir(d, i, x) by {
        if in_dir(e, i, x) {
            let s = choose|s: int| 0 <= s < image::ent_count(e, i) / 16 && #[trigger] dir_block(e, i, s) == x;
            assert(dir_block(d, i, s) == x);
        }
        if in_dir(d, i, x) {
            let s = choose|s: int| 0 <= s < image::ent_count(d, i) / 16 && #[trigger] dir_block(d, i, s) == x;
            assert(dir_block(e, i, s) == x);
        }
    }
    assert forall|s: int| 0 <= s < n / 16 implies first(e) <= #[trigger] dir_block(e, i, s) < JLBA
        && image::used(e, dir_block(e, i, s)) by {
        assert(first(d) <= dir_block(d, i, s) < JLBA);
    }
    assert forall|s: int, t: int| 0 <= s < t < n / 16 implies #[trigger] dir_block(e, i, s)
        != #[trigger] dir_block(e, i, t) by {
        assert(dir_block(d, i, s) != dir_block(d, i, t));
    }
    assert forall|x: int| 0 <= x < n implies #[trigger] image::ent_pos(e, i, x) == image::ent_pos(d, i, x)
        && image::ent_block(e, i, x) == image::ent_block(d, i, x) && same_bytes(
        d,
        e,
        image::ent_pos(d, i, x),
        32,
    ) by {
        assert(dir_block(e, i, x / 16) == dir_block(d, i, x / 16));
        lemma_ent(d, i, x);
        assert(in_dir(d, i, dir_block(d, i, x / 16)));
        assert(same_block(d, e, dir_block(d, i, x / 16)));
    }
    assert forall|x: int| 0 <= x < n implies clean(e, #[trigger] image::ent_pos(e, i, x)) by {
        lemma_ent(d, i, x);
        let q = image::ent_pos(d, i, x);
        assert(image::ent_pos(e, i, x) == q);
        assert(e[q] == d[q]);
        assert forall|m: int| 0 <= m < NAME_LEN implies #[trigger] e[q + m] == d[q + m] by {}
    }
    assert forall|x: int| 0 <= x < n implies #[trigger] matches_at(e, i, name, x) == matches_at(
        d,
        i,
        name,
        x,
    ) by {
        lemma_ent(d, i, x);
        assert(image::ent_pos(e, i, x) == image::ent_pos(d, i, x));
        lemma_name_at(d, e, image::ent_pos(d, i, x));
    }
    lemma_find_same(d, e, i, name, 0);
    if let Some(u) = image::find(d, i, name, 0) {
        lemma_find(d, i, name, 0);
        assert(image::ent_pos(e, i, u) == image::ent_pos(d, i, u));
        lemma_word_same(d, e, image::ent_pos(d, i, u) + NAME_LEN);
    }
}

proof fn lemma_find_same(d: Seq<u8>, e: Seq<u8>, i: int, name: Seq<u8>, x: int)
    requires
        0 <= x,
        image::ent_count(e, i) == image::ent_count(d, i),
        forall|y: int|
            0 <= y < image::ent_count(d, i) ==> #[trigger] matches_at(e, i, name, y) == matches_at(d, i, name, y),
    ensures
        image::find(e, i, name, x) == image::find(d, i, name, x),
    decreases image::ent_count(d, i) - x,
{
    if x < image::ent_count(d, i) {
        assert(matches_at(e, i, name, x) == matches_at(d, i, name, x));
        lemma_find_same(d, e, i, name, x + 1);
    }
}

pub proof fn lemma_first_ino(d: Seq<u8>, i: int)
    requires
        1 <= i,
        image::first_ino(d, i) is Some,
    ensures
        image::is_ino(d, image::first_ino(d, i)->0),
        image::kind_of(d, image::first_ino(d, i)->0) == 0,
    decreases image::ninodes(d) + 1 - i,
{
    if i <= image::ninodes(d) && image::kind_of(d, i) != 0 {
        lemma_first_ino(d, i + 1);
    }
}

/// The block was free and is in use now, and not for a directory.
pub open spec fn fresh_block(d: Seq<u8>, g: Seq<u8>, b: int, dir: int) -> bool {
    first(d) <= b < NBLOCKS && !image::used(d, b) && image::used(g, b) && !in_dir(g, dir, b)
}

/// All blocks of the file are such.
pub open spec fn fresh_parts(d: Seq<u8>, g: Seq<u8>, f: Parts, dir: int) -> bool {
    &&& forall|j: int| 0 <= j < f.p.len() ==> fresh_block(d, g, #[trigger] f.p[j], dir)
    &&& forall|m: int| 0 <= m < f.l.len() ==> fresh_block(d, g, #[trigger] f.l[m], dir)
    &&& f.ind != 0 ==> fresh_block(d, g, f.ind, dir)
    &&& f.dind != 0 ==> fresh_block(d, g, f.dind, dir)
}

/// Everything about a file added: it reads back, the directory stays in
/// order, and what was in use and is neither the directory nor the new inode
/// is as before.
#[verifier::spinoff_prover]
#[verifier::rlimit(60)]
pub proof fn lemma_added(d: Seq<u8>, parent: int, name: Seq<u8>, data: Seq<u8>)
    requires
        tidy(d, parent),
        name_ok(name),
        image::looked_up(d, parent, name) is None,
        data.len() <= u32::MAX,
        image::added(d, parent, name, data) is Some,
    ensures
        ({
            let g = image::added(d, parent, name, data)->0;
            let i = image::first_ino(d, 1)->0;
            &&& tidy(g, parent)
            &&& image::is_ino(d, i)
            &&& i != parent
            &&& image::looked_up(g, parent, name) == Some(i as u32)
            &&& image::kind_of(g, i) == KIND_FILE
            &&& image::size_of(g, i) == data.len()
            &&& image::content(g, i) == data
            &&& image::file_ok(g, i)
            &&& exists|f: Parts| #[trigger] whole(g, i, f, data) && fresh_parts(d, g, f, parent)
            &&& forall|x: int| #[trigger] in_dir(g, parent, x) ==> in_dir(d, parent, x) || !image::used(d, x)
            &&& image::ninodes(g) == image::ninodes(d)
            &&& forall|x: int| 0 <= x < NBLOCKS && image::used(d, x) ==> #[trigger] image::used(g, x)
            &&& forall|x: int|
                first(d) <= x < NBLOCKS && #[trigger] image::used(d, x) && !in_dir(d, parent, x)
                    ==> same_block(d, g, x)
            &&& forall|other: Seq<u8>|
                name_ok(other) && other != name ==> #[trigger] image::looked_up(g, parent, other)
                    == image::looked_up(d, parent, other)
            &&& same_bytes(d, g, 0, BLOCK as int)
            &&& forall|j: int|
                3 * BLOCK <= j < first(d) * BLOCK && !(image::ino_pos(i) <= j < image::ino_pos(i) + INO_SIZE)
                    && !(image::ino_pos(parent) <= j < image::ino_pos(parent) + INO_SIZE) ==> #[trigger] g[j]
                    == d[j]
        }),
{
    let i = image::first_ino(d, 1)->0;
    lemma_first_ino(d, 1);
    image::lemma_ino_room(d, i);
    image::lemma_ino_room(d, parent);
    let io = image::ino_pos(i);
    let d1 = image::ino_set(d, i, KIND_FILE, 0);
    image::lemma_ino_set(d, i, KIND_FILE, 0);
    assert forall|x: int| 0 <= x < NBLOCKS implies #[trigger] image::used(d1, x) == image::used(d, x) by {
        assert(d1[BLOCK + x / 8] == d[BLOCK + x / 8]);
    }
    assert forall|x: int| #[trigger] in_dir(d, parent, x) implies same_block(d, d1, x) by {
        let s = choose|s: int| 0 <= s < image::ent_count(d, parent) / 16 && #[trigger] dir_block(d, parent, s) == x;
        assert(first(d) <= dir_block(d, parent, s));
    }
    lemma_dir_kept(d, d1, parent, name);
    let f0 = Parts { p: Seq::empty(), l: Seq::empty(), ind: 0, dind: 0 };
    assert(linked(d1, d1, i, f0, data));
    let (dz, f) = lemma_grown(d1, image::start(d1), i, f0, data);
    let e = dev::with_word(dz, io + 4, data.len() as u32);
    lemma_sized(d1, dz, i, f, data, data.len() as u32);
    assert(whole(e, i, f, data)) by {
        assert forall|j: int| 0 <= j < f.p.len() implies 3 <= #[trigger] f.p[j] < NBLOCKS by {
            assert(taken(d1, e, f.p[j]));
        }
        assert forall|m: int| 0 <= m < f.l.len() implies 3 <= #[trigger] f.l[m] < NBLOCKS by {
            assert(taken(d1, e, f.l[m]));
        }
    }
    assert forall|x: int| #[trigger] in_dir(d1, parent, x) implies same_block(d1, e, x) && image::used(d1, x)
        && first(d1) <= x by {
        let s = choose|s: int| 0 <= s < image::ent_count(d1, parent) / 16 && #[trigger] dir_block(d1, parent, s) == x;
        assert(first(d1) <= dir_block(d1, parent, s) < JLBA);
        assert(image::used(d1, x));
    }
    lemma_dir_kept(d1, e, parent, name);
    lemma_entered(e, parent, name, i);
    let g = image::added(d, parent, name, data)->0;
    assert(g == image::entered(e, parent, name, i)->0);
    assert(same_bytes(e, g, io, INO_SIZE as int)) by {
        assert forall|j: int| io <= j < io + INO_SIZE implies #[trigger] g[j] == e[j] by {
            if i < parent {
                assert(3 * BLOCK <= j < image::ino_pos(parent));
            } else {
                assert(image::ino_pos(parent) + INO_SIZE <= j);
            }
        }
    }
    assert forall|x: int| taken(d1, e, x) implies #[trigger] same_block(e, g, x) by {
        assert(!in_dir(e, parent, x)) by {
            assert(in_dir(e, parent, x) == in_dir(d1, parent, x));
        }
        assert(image::used(e, x));
    }
    assert forall|j: int| 0 <= j < f.p.len() implies same_block(e, g, #[trigger] f.p[j]) by {
        assert(taken(d1, e, f.p[j]));
    }
    assert forall|m: int| 0 <= m < f.l.len() implies same_block(e, g, #[trigger] f.l[m]) by {
        assert(taken(d1, e, f.l[m]));
    }
    assert forall|other: Seq<u8>|
        name_ok(other) && other != name implies #[trigger] image::looked_up(g, parent, other)
        == image::looked_up(d, parent, other) by {
        lemma_dir_kept(d, d1, parent, other);
        lemma_dir_kept(d1, e, parent, other);
        lemma_entered_other(e, parent, name, i, other);
    }
    lemma_whole_kept(e, g, i, f, data);
    lemma_content(g, i, f, data);
    assert forall|x: int| #[trigger] in_dir(g, parent, x) implies in_dir(d, parent, x) || !image::used(d, x) by {
        assert(in_dir(e, parent, x) || !image::used(e, x));
        assert(in_dir(e, parent, x) == in_dir(d1, parent, x));
        assert(in_dir(d1, parent, x) == in_dir(d, parent, x));
        if !in_dir(d, parent, x) && 0 <= x < NBLOCKS {
            assert(image::used(d1, x) ==> image::used(e, x));
        } else if !in_dir(d, parent, x) {
            assert(first(g) <= x < JLBA) by {
                let s = choose|s: int| 0 <= s < image::ent_count(g, parent) / 16 && #[trigger] dir_block(g, parent, s) == x;
                assert(first(g) <= dir_block(g, parent, s) < JLBA);
            }
        }
    }
    assert forall|x: int| #[trigger] taken(d1, e, x) implies fresh_block(d, g, x, parent) by {
        assert(!in_dir(e, parent, x)) by {
            assert(in_dir(e, parent, x) == in_dir(d1, parent, x));
        }
        assert(in_dir(g, parent, x) ==> in_dir(e, parent, x) || !image::used(e, x));
        assert(image::used(e, x) ==> image::used(g, x));
        assert(image::used(d1, x) == image::used(d, x));
    }
    assert(fresh_parts(d, g, f, parent)) by {
        assert forall|j: int| 0 <= j < f.p.len() implies fresh_block(d, g, #[trigger] f.p[j], parent) by {
            assert(taken(d1, e, f.p[j]));
        }
        assert forall|m: int| 0 <= m < f.l.len() implies fresh_block(d, g, #[trigger] f.l[m], parent) by {
            assert(taken(d1, e, f.l[m]));
        }
        assert(f.ind != 0 ==> taken(d1, e, f.ind));
        assert(f.dind != 0 ==> taken(d1, e, f.dind));
    }
    assert(g[io] == e[io] && e[io] == d1[io]);
    assert forall|x: int| 0 <= x < NBLOCKS && image::used(d, x) implies #[trigger] image::used(g, x) by {
        assert(image::used(d1, x));
        assert(image::used(e, x));
    }
    assert forall|x: int|
        first(d) <= x < NBLOCKS && #[trigger] image::used(d, x) && !in_dir(d, parent, x) implies same_block(
        d,
        g,
        x,
    ) by {
        assert(image::used(d1, x));
        assert(image::used(e, x));
        assert(in_dir(d1, parent, x) == in_dir(d, parent, x));
        assert(in_dir(e, parent, x) == in_dir(d1, parent, x));
        assert(same_block(d1, e, x));
        assert(same_block(e, g, x));
        assert forall|j: int| x * BLOCK <= j < x * BLOCK + BLOCK implies #[trigger] g[j] == d[j] by {
            assert(g[j] == e[j] && e[j] == d1[j] && d1[j] == d[j]);
        }
    }
    assert forall|j: int| 0 <= j < BLOCK implies #[trigger] g[j] == d[j] by {
        assert(g[j] == e[j] && e[j] == d1[j] && d1[j] == d[j]);
    }
    assert forall|j: int|
        3 * BLOCK <= j < first(d) * BLOCK && !(io <= j < io + INO_SIZE) && !(image::ino_pos(parent) <= j
            < image::ino_pos(parent) + INO_SIZE) implies #[trigger] g[j] == d[j] by {
        assert(g[j] == e[j]);
        assert(e[j] == d1[j]);
        assert(d1[j] == d[j]);
    }
}

/// A file added is read back byte for byte, whatever its length, and its
/// directory stays in order, so that more can be added.
pub proof fn law_add_then_read(d: Seq<u8>, parent: int, name: Seq<u8>, data: Seq<u8>)
    requires
        tidy(d, parent),
        name_ok(name),
        image::looked_up(d, parent, name) is None,
        data.len() <= u32::MAX,
        image::added(d, parent, name, data) is Some,
    ensures
        image::file_read(image::added(d, parent, name, data)->0, parent, name) == Some(data),
        tidy(image::added(d, parent, name, data)->0, parent),
{
    lemma_added(d, parent, name, data);
}

/// Blocks of a file that are in use and not a directory's.
pub open spec fn held(d: Seq<u8>, f: Parts, dir: int) -> bool {
    &&& forall|j: int| 0 <= j < f.p.len() ==> own_block(d, #[trigger] f.p[j], dir)
    &&& forall|m: int| 0 <= m < f.l.len() ==> own_block(d, #[trigger] f.l[m], dir)
    &&& f.ind != 0 ==> own_block(d, f.ind, dir)
    &&& f.dind != 0 ==> own_block(d, f.dind, dir)
}

pub open spec fn own_block(d: Seq<u8>, b: int, dir: int) -> bool {
    first(d) <= b < NBLOCKS && image::used(d, b) && !in_dir(d, dir, b)
}

pub proof fn lemma_slot_kept(d: Seq<u8>, g: Seq<u8>, i: int, parent: int, k: int)
    requires
        image::wf(d),
        image::is_ino(d, k),
        k != i,
        k != parent,
        forall|j: int|
            3 * BLOCK <= j < first(d) * BLOCK && !(image::ino_pos(i) <= j < image::ino_pos(i) + INO_SIZE) && !(
            image::ino_pos(parent) <= j < image::ino_pos(parent) + INO_SIZE) ==> #[trigger] g[j] == d[j],
    ensures
        same_bytes(d, g, image::ino_pos(k), INO_SIZE as int),
{
    image::lemma_ino_room(d, k);
}

proof fn lemma_held_kept(d: Seq<u8>, g: Seq<u8>, parent: int, k: int, f: Parts, old_data: Seq<u8>)
    requires
        whole(d, k, f, old_data),
        held(d, f, parent),
        g.len() == SIZE,
        same_bytes(d, g, image::ino_pos(k), INO_SIZE as int),
        forall|x: int|
            first(d) <= x < NBLOCKS && #[trigger] image::used(d, x) && !in_dir(d, parent, x) ==> same_block(d, g, x),
    ensures
        image::content(g, k) == old_data,
        image::kind_of(g, k) == image::kind_of(d, k),
{
    assert forall|j: int| 0 <= j < f.p.len() implies same_block(d, g, #[trigger] f.p[j]) by {
        assert(own_block(d, f.p[j], parent));
    }
    assert forall|m: int| 0 <= m < f.l.len() implies same_block(d, g, #[trigger] f.l[m]) by {
        assert(own_block(d, f.l[m], parent));
    }
    lemma_whole_kept(d, g, k, f, old_data);
    lemma_content(g, k, f, old_data);
    assert(g[image::ino_pos(k)] == d[image::ino_pos(k)]);
}

/// Adding a file leaves the other names of the directory as they were.
pub proof fn law_add_keeps_names(d: Seq<u8>, parent: int, name: Seq<u8>, data: Seq<u8>, other: Seq<u8>)
    requires
        tidy(d, parent),
        name_ok(name),
        image::looked_up(d, parent, name) is None,
        data.len() <= u32::MAX,
        image::added(d, parent, name, data) is Some,
        name_ok(other),
        other != name,
    ensures
        image::looked_up(image::added(d, parent, name, data)->0, parent, other) == image::looked_up(
            d,
            parent,
            other,
        ),
{
    lemma_added(d, parent, name, data);
}

/// Adding a file leaves every other file's data as it was.
pub proof fn law_add_keeps(
    d: Seq<u8>,
    parent: int,
    name: Seq<u8>,
    data: Seq<u8>,
    k: int,
    f: Parts,
    old_data: Seq<u8>,
)
    requires
        tidy(d, parent),
        name_ok(name),
        image::looked_up(d, parent, name) is None,
        data.len() <= u32::MAX,
        image::added(d, parent, name, data) is Some,
        image::is_ino(d, k),
        image::kind_of(d, k) == KIND_FILE,
        whole(d, k, f, old_data),
        held(d, f, parent),
    ensures
        image::content(image::added(d, parent, name, data)->0, k) == old_data,
        image::kind_of(image::added(d, parent, name, data)->0, k) == KIND_FILE,
{
    lemma_added(d, parent, name, data);
    lemma_first_ino(d, 1);
    let g = image::added(d, parent, name, data)->0;
    let i = image::first_ino(d, 1)->0;
    lemma_slot_kept(d, g, i, parent, k);
    lemma_held_kept(d, g, parent, k, f, old_data);
}

/// Another name in the directory keeps its number when an entry is added.
#[verifier::spinoff_prover]
#[verifier::rlimit(40)]
proof fn lemma_entered_other_old(d: Seq<u8>, i: int, name: Seq<u8>, c: int, other: Seq<u8>)
    requires
        tidy(d, i),
        name_ok(name),
        name_ok(other),
        other != name,
        0 <= c <= u32::MAX,
        image::find(d, i, name, 0) is None,
        image::unused(d, i, 0) < image::ent_count(d, i),
    ensures
        image::looked_up(
            image::ent_put(d, image::ent_pos(d, i, image::unused(d, i, 0)), name, c),
            i,
            other,
        ) == image::looked_up(d, i, other),
{
    let u = image::unused(d, i, 0);
    let o = image::ent_pos(d, i, u);
    let io = image::ino_pos(i);
    let n = image::ent_count(d, i);
    let g = image::ent_put(d, o, name, c);
    image::lemma_ino_room(d, i);
    lemma_unused(d, i, 0);
    lemma_ent(d, i, u);
    lemma_ent_put(d, o, name, c);
    lemma_entered_old(d, i, name, c);
    lemma_word_same(d, g, io + 4);
    assert(image::kind_of(g, i) == image::kind_of(d, i));
    assert forall|x: int| 0 <= x < n implies #[trigger] image::ent_pos(g, i, x) == image::ent_pos(d, i, x)
        && image::ent_block(g, i, x) == image::ent_block(d, i, x) by {
        lemma_word_same(d, g, io + 8 + 4 * (x / 16));
    }
    assert forall|x: int| 0 <= x < n implies #[trigger] matches_at(g, i, other, x) == matches_at(d, i, other, x) by {
        lemma_ent(d, i, x);
        assert(image::ent_pos(g, i, x) == image::ent_pos(d, i, x));
        if x == u {
            assert(image::name_at(d, o).len() == 0);
        } else {
            lemma_ents_apart(d, i, x, u);
            lemma_name_at(d, g, image::ent_pos(d, i, x));
        }
    }
    lemma_find_same(d, g, i, other, 0);
    lemma_find(d, i, other, 0);
    if let Some(v) = image::find(d, i, other, 0) {
        lemma_ent(d, i, v);
        assert(image::ent_pos(g, i, v) == image::ent_pos(d, i, v));
        assert(v != u) by {
            if v == u {
                assert(image::name_at(d, o).len() == 0);
            }
        }
        lemma_ents_apart(d, i, v, u);
        lemma_word_same(d, g, image::ent_pos(d, i, v) + NAME_LEN);
    }
}

proof fn lemma_entered_other(d: Seq<u8>, i: int, name: Seq<u8>, c: int, other: Seq<u8>)
    requires
        tidy(d, i),
        name_ok(name),
        name_ok(other),
        other != name,
        0 <= c <= u32::MAX,
        image::find(d, i, name, 0) is None,
        image::entered(d, i, name, c) is Some,
    ensures
        image::looked_up(image::entered(d, i, name, c)->0, i, other) == image::looked_up(d, i, other),
{
    let n = image::ent_count(d, i);
    let u = image::unused(d, i, 0);
    lemma_unused(d, i, 0);
    if u < n {
        lemma_ent(d, i, u);
        lemma_entered_other_old(d, i, name, c, other);
    } else {
        lemma_extended(d, i);
        let (f, b) = image::grabbed(d)->0;
        let h = extended(f, i, b);
        lemma_extended_names(d, i, name);
        lemma_extended_names(d, i, other);
        lemma_entered_other_old(h, i, name, c, other);
        assert(image::entered(d, i, name, c)->0 == image::ent_put(h, b * BLOCK, name, c));
    }
}

/// An empty image has a root and a directory for programs in it, both in
/// order, and that directory is found by its name.
#[verifier::spinoff_prover]
#[verifier::rlimit(40)]
pub proof fn law_fresh(nfiles: int)
    requires
        0 <= nfiles <= MAX_FILES,
    ensures
        tidy(image::fresh(nfiles), ROOT_INO as int),
        tidy(image::fresh(nfiles), BIN_INO as int),
        image::looked_up(image::fresh(nfiles), ROOT_INO as int, image::bin_name()) == Some(BIN_INO),
        image::listing(image::fresh(nfiles), BIN_INO as int, 0) == Seq::<(Seq<u8>, u32)>::empty(),
        dirs_apart(image::fresh(nfiles), ROOT_INO as int, BIN_INO as int),
        image::ninodes(image::fresh(nfiles)) == image::inodes_for(nfiles),
        image::size_of(image::fresh(nfiles), BIN_INO as int) == 0,
        forall|other: Seq<u8>|
            name_ok(other) && other != image::bin_name() ==> #[trigger] image::looked_up(
                image::fresh(nfiles),
                ROOT_INO as int,
                other,
            ) is None,
        same_bytes(
            image::described(image::inodes_for(nfiles), 13),
            image::fresh(nfiles),
            0,
            BLOCK as int,
        ),
{
    let n = image::inodes_for(nfiles);
    let r = image::reserved(n);
    image::lemma_reserved(n);
    let e = image::ino_set(r, 1, KIND_DIR, 0);
    image::lemma_ino_set(r, 1, KIND_DIR, 0);
    let d = image::ino_set(e, 2, KIND_DIR, 0);
    image::lemma_ino_set(e, 2, KIND_DIR, 0);
    image::lemma_empty_root(d, n);
    assert(image::ino_pos(1) == 1536 && image::ino_pos(2) == 1600);
    assert(d[1536] == e[1536]);
    assert(image::size_of(d, 1) == 0) by {
        assert(same_bytes(e, d, 1540, 4));
        lemma_word_same(e, d, 1540);
    }
    assert(image::ent_count(d, 1) == 0);
    assert(image::ent_count(d, 2) == 0);
    assert(tidy(d, 1));
    assert(tidy(d, 2));
    assert(image::find(d, 1, image::bin_name(), 0) is None);
    lemma_entered(d, 1, image::bin_name(), 2);
    let g = image::fresh(nfiles);
    assert(g == image::entered(d, 1, image::bin_name(), 2)->0);
    assert(same_bytes(d, g, image::ino_pos(2), INO_SIZE as int)) by {
        assert forall|j: int| 1600 <= j < 1664 implies #[trigger] g[j] == d[j] by {
            assert(image::ino_pos(1) + INO_SIZE <= j < first(d) * BLOCK);
        }
    }
    lemma_dir_kept(d, g, 2, image::bin_name());
    lemma_word_same(d, g, image::ino_pos(2) + 4);
    assert forall|other: Seq<u8>| name_ok(other) && other != image::bin_name() implies #[trigger] image::looked_up(
        g,
        1,
        other,
    ) is None by {
        lemma_entered_other(d, 1, image::bin_name(), 2, other);
    }
    let t = image::described(n, 13);
    assert forall|j: int| 0 <= j < BLOCK implies #[trigger] g[j] == t[j] by {
        assert(g[j] == d[j] && d[j] == e[j] && e[j] == r[j] && r[j] == t[j]);
    }
}

/// Two directories have no block in common.
pub open spec fn dirs_apart(d: Seq<u8>, i: int, k: int) -> bool {
    forall|x: int| #[trigger] in_dir(d, i, x) ==> !in_dir(d, k, x)
}

/// Adding a file leaves other directories as they were, and apart from the one
/// it was added to.
#[verifier::spinoff_prover]
#[verifier::rlimit(40)]
pub proof fn law_add_keeps_dirs(d: Seq<u8>, parent: int, name: Seq<u8>, data: Seq<u8>, k: int, other: Seq<u8>)
    requires
        tidy(d, parent),
        name_ok(name),
        image::looked_up(d, parent, name) is None,
        data.len() <= u32::MAX,
        image::added(d, parent, name, data) is Some,
        tidy(d, k),
        k != parent,
        dirs_apart(d, k, parent),
    ensures
        tidy(image::added(d, parent, name, data)->0, k),
        image::looked_up(image::added(d, parent, name, data)->0, k, other) == image::looked_up(d, k, other),
        forall|x: int| in_dir(image::added(d, parent, name, data)->0, k, x) == #[trigger] in_dir(d, k, x),
{
    lemma_added(d, parent, name, data);
    lemma_first_ino(d, 1);
    let g = image::added(d, parent, name, data)->0;
    let i = image::first_ino(d, 1)->0;
    lemma_slot_kept(d, g, i, parent, k);
    assert forall|x: int| #[trigger] in_dir(d, k, x) implies same_block(d, g, x) by {
        let s = choose|s: int| 0 <= s < image::ent_count(d, k) / 16 && #[trigger] dir_block(d, k, s) == x;
        assert(first(d) <= dir_block(d, k, s) < JLBA && image::used(d, dir_block(d, k, s)));
        assert(!in_dir(d, parent, x));
    }
    lemma_dir_kept(d, g, k, other);
}

/// A file that grows leaves other inodes alone.
pub proof fn lemma_grown_elsewhere(d: Seq<u8>, i: int, data: Seq<u8>, j: int)
    requires
        image::wf(d),
        image::is_ino(d, i),
        image::is_ino(d, j),
        j != i,
        image::grown(image::start(image::ino_set(d, i, KIND_FILE, 0)), image::ino_pos(i), data, 0) is Some,
    ensures
        ({
            let e = image::grown(image::start(image::ino_set(d, i, KIND_FILE, 0)), image::ino_pos(i), data, 0)->0;
            &&& image::wf(e)
            &&& image::ninodes(e) == image::ninodes(d)
            &&& same_bytes(d, e, image::ino_pos(j), INO_SIZE as int)
        }),
{
    let io = image::ino_pos(i);
    let jo = image::ino_pos(j);
    image::lemma_ino_room(d, i);
    image::lemma_ino_room(d, j);
    let d1 = image::ino_set(d, i, KIND_FILE, 0);
    image::lemma_ino_set(d, i, KIND_FILE, 0);
    let f0 = Parts { p: Seq::empty(), l: Seq::empty(), ind: 0, dind: 0 };
    assert(linked(d1, d1, i, f0, data));
    let (dz, f) = lemma_grown(d1, image::start(d1), i, f0, data);
    let e = dev::with_word(dz, io + 4, data.len() as u32);
    lemma_sized(d1, dz, i, f, data, data.len() as u32);
    assert forall|x: int| jo <= x < jo + INO_SIZE implies #[trigger] e[x] == d[x] by {
        assert(jo + 64 <= io || io + 64 <= jo) by {
            assert(jo - io == (j - i) * 64);
        }
        assert(e[x] == d1[x]);
        assert(d1[x] == d[x]);
    }
}

} // verus!
