//! A disk image: a description in block 0, a bitmap of blocks in use, a table
//! of inodes, data blocks, and a journal at the end.
//!
//! A file has eight blocks of its own, a block that lists a hundred and
//! twenty-eight more, and a block that lists as many such lists.
use crate::fs::dev;
use crate::fs::disk;
use crate::fs::sound;
use crate::fs::text;
use crate::mkfs::laws;
use vstd::prelude::*;

verus! {

pub const BLOCK: usize = 512;

pub const NBLOCKS: u32 = 8192;

/// Bytes of an image.
pub const SIZE: usize = 0x40_0000;

/// The journal.
pub const JLBA: u32 = 7680;

pub const JB: u32 = 512;

pub const BMAP_LBA: u32 = 1;

pub const BMAP_BLOCKS: u32 = 2;

pub const INO_LBA: u32 = 3;

pub const INO_SIZE: usize = 64;

pub const INODES_PER_BLOCK: u32 = 8;

pub const ROOT_INO: u32 = 1;

pub const BIN_INO: u32 = 2;

pub const KIND_FILE: u8 = 1;

pub const KIND_DIR: u8 = 2;

pub const NAME_LEN: usize = 28;

pub const DIRENT_SIZE: usize = 32;

/// Inodes beyond those of the files, and files an image can be made for.
pub const SPARE: u32 = 66;

pub const MAX_FILES: usize = 61342;

/// Largest directory: eight blocks.
pub const MAX_DIR: u32 = 4096;

pub struct Image {
    pub data: Vec<u8>,
}

impl View for Image {
    type V = Seq<u8>;

    open spec fn view(&self) -> Seq<u8> {
        self.data@
    }
}

// ---- bytes ----

/// Bytes stored from `o` on.
pub open spec fn put(d: Seq<u8>, o: int, v: Seq<u8>) -> Seq<u8> {
    Seq::new(
        d.len(),
        |i: int|
            if o <= i < o + v.len() {
                v[i - o]
            } else {
                d[i]
            },
    )
}

fn store(d: &mut Vec<u8>, o: usize, v: &[u8])
    requires
        o + v@.len() <= old(d)@.len(),
    ensures
        final(d)@ == put(old(d)@, o as int, v@),
{
    let n: usize = v.len();
    let mut i: usize = 0;
    let ghost d0 = d@;
    let len: usize = d.len();
    assert(d@ =~= put(d0, o as int, v@.take(0)));
    while i < n
        invariant
            n == v@.len(),
            i <= n,
            len == d0.len(),
            o + n <= len,
            d@ == put(d0, o as int, v@.take(i as int)),
        decreases n - i,
    {
        d.set(o + i, v[i]);
        i += 1;
        assert(d@ =~= put(d0, o as int, v@.take(i as int)));
    }
    assert(v@.take(n as int) =~= v@);
}

fn w32(d: &mut Vec<u8>, o: usize, v: u32)
    requires
        o + 4 <= old(d)@.len(),
    ensures
        final(d)@ == dev::with_word(old(d)@, o as int, v),
{
    let len: usize = d.len();
    d.set(o, (v % 256) as u8);
    d.set(o + 1, (v / 0x100 % 256) as u8);
    d.set(o + 2, (v / 0x1_0000 % 256) as u8);
    d.set(o + 3, (v / 0x100_0000 % 256) as u8);
    assert(d@ =~= dev::with_word(old(d)@, o as int, v));
}

/// A little-endian word of an image.
pub fn r32(d: &[u8], o: usize) -> (v: u32)
    requires
        o + 4 <= d@.len(),
    ensures
        v == dev::word(d@, o as int),
{
    dev::r32(d, o)
}

// ---- blocks ----

/// The block is marked in use.
pub open spec fn used(d: Seq<u8>, b: int) -> bool {
    disk::bit(d[BLOCK + b / 8], b % 8)
}

pub open spec fn marked(d: Seq<u8>, b: int) -> Seq<u8> {
    d.update(BLOCK + b / 8, disk::bit_set(d[BLOCK + b / 8], b % 8))
}

/// The first block from `b` on that is free and not of the journal.
pub open spec fn first_free(d: Seq<u8>, b: int) -> Option<int>
    decreases JLBA - b,
{
    if b >= JLBA {
        None
    } else if !used(d, b) {
        Some(b)
    } else {
        first_free(d, b + 1)
    }
}

pub open spec fn zeros() -> Seq<u8> {
    Seq::new(BLOCK as nat, |i: int| 0u8)
}

/// The first free block taken and zeroed.
pub open spec fn grabbed(d: Seq<u8>) -> Option<(Seq<u8>, int)> {
    match first_free(d, 0) {
        Some(b) => Some((put(marked(d, b), b * BLOCK, zeros()), b)),
        None => None,
    }
}

fn power(k: u32) -> (p: u8)
    requires
        k < 8,
    ensures
        p == disk::pow2(k as int),
{
    match k {
        0 => 1,
        1 => 2,
        2 => 4,
        3 => 8,
        4 => 16,
        5 => 32,
        6 => 64,
        _ => 128,
    }
}

impl Image {
    fn set_used(&mut self, lba: u32)
        requires
            old(self)@.len() == SIZE,
            lba < NBLOCKS,
        ensures
            final(self)@ == if used(old(self)@, lba as int) {
                old(self)@
            } else {
                marked(old(self)@, lba as int)
            },
            final(self)@ == marked(old(self)@, lba as int),
            final(self)@.len() == SIZE,
    {
        let o: usize = BLOCK + lba as usize / 8;
        let p = power(lba % 8);
        let x = self.data[o];
        if x / p % 2 == 0 {
            proof {
                disk::lemma_bit_room(x, (lba % 8) as int);
            }
            self.data.set(o, x + p);
        }
        assert(self@ =~= marked(old(self)@, lba as int));
    }

    /// Whether a block is marked in use.
    pub fn is_used(&self, lba: u32) -> (r: bool)
        requires
            self@.len() == SIZE,
            lba < NBLOCKS,
        ensures
            r == used(self@, lba as int),
    {
        let o: usize = BLOCK + lba as usize / 8;
        let p = power(lba % 8);
        self.data[o] / p % 2 == 1
    }

    fn balloc(&mut self) -> (r: Option<u32>)
        requires
            old(self)@.len() == SIZE,
        ensures
            final(self)@.len() == SIZE,
            match grabbed(old(self)@) {
                Some((d, b)) => final(self)@ == d && r is Some && r->0 == b && 0 <= b < JLBA,
                None => final(self)@ == old(self)@ && r is None,
            },
    {
        let mut b: u32 = 0;
        while b < JLBA
            invariant
                b <= JLBA,
                *self == *old(self),
                self@.len() == SIZE,
                first_free(self@, 0) == first_free(self@, b as int),
            decreases JLBA - b,
        {
            if !self.is_used(b) {
                self.set_used(b);
                let z: [u8; BLOCK] = [0; BLOCK];
                assert(z@ =~= zeros());
                store(&mut self.data, b as usize * BLOCK, z.as_slice());
                return Some(b);
            }
            b += 1;
        }
        None
    }
}

// ---- inodes ----

pub open spec fn ino_pos(i: int) -> int {
    INO_LBA * BLOCK + (i - 1) * INO_SIZE
}

pub open spec fn ninodes(d: Seq<u8>) -> int {
    dev::word(d, 32) as int
}

/// Blocks before the first one for data.
pub open spec fn data_lba(n: int) -> int {
    INO_LBA + (n + 7) / 8
}

/// An image: the inode table ends before the journal, and everything up to
/// its end is marked in use.
pub open spec fn wf(d: Seq<u8>) -> bool {
    &&& d.len() == SIZE
    &&& data_lba(ninodes(d)) < JLBA
    &&& forall|b: int| 0 <= b < data_lba(ninodes(d)) ==> #[trigger] used(d, b)
}

/// An inode of the table.
pub open spec fn is_ino(d: Seq<u8>, i: int) -> bool {
    1 <= i <= ninodes(d)
}

pub open spec fn kind_of(d: Seq<u8>, i: int) -> u8 {
    d[ino_pos(i)]
}

pub open spec fn size_of(d: Seq<u8>, i: int) -> u32 {
    dev::word(d, ino_pos(i) + 4)
}

/// An inode with kind, size and one name; its blocks are as before.
pub open spec fn ino_set(d: Seq<u8>, i: int, kind: u8, size: u32) -> Seq<u8> {
    let o = ino_pos(i);
    dev::with_word(
        dev::with_word(put(d, o, seq![kind, 0u8, 0u8, 0u8]), o + 4, size),
        o + 44,
        1,
    )
}

/// The first inode from `i` on that is not in use.
pub open spec fn first_ino(d: Seq<u8>, i: int) -> Option<int>
    decreases ninodes(d) + 1 - i,
{
    if i > ninodes(d) {
        None
    } else if kind_of(d, i) == 0 {
        Some(i)
    } else {
        first_ino(d, i + 1)
    }
}

/// An inode lies in the table.
pub proof fn lemma_ino_room(d: Seq<u8>, i: int)
    requires
        wf(d),
        is_ino(d, i),
    ensures
        ino_pos(1) <= ino_pos(i),
        ino_pos(i) + INO_SIZE <= data_lba(ninodes(d)) * BLOCK,
        ino_pos(i) + INO_SIZE <= JLBA * BLOCK,
{
}

impl Image {
    /// Where an inode lies.
    pub fn ino_off(ino: u32) -> (o: usize)
        requires
            1 <= ino < 0x10_0000,
        ensures
            o == ino_pos(ino as int),
    {
        INO_LBA as usize * BLOCK + (ino - 1) as usize * INO_SIZE
    }

    fn inode_set(&mut self, ino: u32, kind: u8, size: u32)
        requires
            wf(old(self)@),
            is_ino(old(self)@, ino as int),
        ensures
            final(self)@ == ino_set(old(self)@, ino as int, kind, size),
    {
        proof {
            lemma_ino_room(self@, ino as int);
        }
        let o = Self::ino_off(ino);
        let k: [u8; 4] = [kind, 0, 0, 0];
        assert(k@ =~= seq![kind, 0u8, 0u8, 0u8]);
        store(&mut self.data, o, k.as_slice());
        w32(&mut self.data, o + 4, size);
        w32(&mut self.data, o + 44, 1);
    }

    fn inode_alloc(&mut self, kind: u8) -> (r: Option<u32>)
        requires
            wf(old(self)@),
        ensures
            match first_ino(old(self)@, 1) {
                Some(i) => r is Some && r->0 == i && is_ino(old(self)@, i) && final(self)@ == ino_set(
                    old(self)@,
                    i,
                    kind,
                    0,
                ),
                None => r is None && final(self)@ == old(self)@,
            },
    {
        let n = r32(self.data.as_slice(), 32);
        let mut i: u32 = 1;
        while i <= n
            invariant
                n == ninodes(self@),
                1 <= i <= n + 1,
                *self == *old(self),
                wf(self@),
                first_ino(self@, 1) == first_ino(self@, i as int),
            decreases n + 1 - i,
        {
            proof {
                lemma_ino_room(self@, i as int);
            }
            if self.data[Self::ino_off(i)] == 0 {
                self.inode_set(i, kind, 0);
                return Some(i);
            }
            i += 1;
        }
        None
    }
}

// ---- contents ----

/// An image while a file grows, and the blocks of its lists (0: none yet).
#[verifier::ext_equal]
pub struct Grow {
    pub d: Seq<u8>,
    pub ind: int,
    pub dind: int,
}

/// A list block that is made when it is missing; its number is stored at `o`.
pub open spec fn with_list(d: Seq<u8>, have: int, o: int) -> Option<(Seq<u8>, int)> {
    if have != 0 {
        Some((d, have))
    } else {
        match grabbed(d) {
            Some((e, b)) => Some((dev::with_word(e, o, b as u32), b)),
            None => None,
        }
    }
}

/// Block `k` of a file noted, with the lists that this takes. None when there
/// is no room for those, or the file has too many blocks.
pub open spec fn noted(g: Grow, io: int, k: int, b: int) -> Option<Grow> {
    if k < 8 {
        Some(Grow { d: dev::with_word(g.d, io + 8 + 4 * k, b as u32), ..g })
    } else if k < 136 {
        match with_list(g.d, g.ind, io + 40) {
            Some((d, ind)) => Some(
                Grow { d: dev::with_word(d, ind * BLOCK + 4 * (k - 8), b as u32), ind, ..g },
            ),
            None => None,
        }
    } else {
        let l1 = (k - 136) / 128;
        let l2 = (k - 136) % 128;
        if l1 >= 128 {
            None
        } else {
            match with_list(g.d, g.dind, io + 48) {
                Some((d, dind)) => {
                    let o = dind * BLOCK + 4 * l1;
                    let have = dev::word(d, o) as int;
                    match with_list(d, have, o) {
                        Some((e, l)) => if l >= NBLOCKS {
                            None
                        } else {
                            Some(
                                Grow {
                                    d: dev::with_word(e, l * BLOCK + 4 * l2, b as u32),
                                    dind,
                                    ..g
                                },
                            )
                        },
                        None => None,
                    }
                },
                None => None,
            }
        }
    }
}

/// Bytes of block `k` of the data.
pub open spec fn piece(data: Seq<u8>, k: int) -> Seq<u8> {
    if k * BLOCK + BLOCK <= data.len() {
        data.subrange(k * BLOCK, k * BLOCK + BLOCK)
    } else {
        data.subrange(k * BLOCK, data.len() as int)
    }
}

/// Data written to an inode from block `k` on. None where there is no room.
pub open spec fn grown(g: Grow, io: int, data: Seq<u8>, k: int) -> Option<Seq<u8>>
    decreases data.len() - k * BLOCK + BLOCK,
{
    if k * BLOCK >= data.len() {
        Some(dev::with_word(g.d, io + 4, data.len() as u32))
    } else {
        match grabbed(g.d) {
            None => None,
            Some((d, b)) => match noted(
                Grow { d: put(d, b * BLOCK, piece(data, k)), ..g },
                io,
                k,
                b,
            ) {
                None => None,
                Some(h) => grown(h, io, data, k + 1),
            },
        }
    }
}

pub open spec fn start(d: Seq<u8>) -> Grow {
    Grow { d, ind: 0, dind: 0 }
}

/// The first free block is free.
pub proof fn lemma_free(d: Seq<u8>, b: int)
    ensures
        first_free(d, b) matches Some(k) ==> b <= k < JLBA && !used(d, k),
    decreases JLBA - b,
{
    if b < JLBA && used(d, b) {
        lemma_free(d, b + 1);
    }
}

impl Image {
    fn list_block(&mut self, have: u32, o: usize) -> (r: Option<u32>)
        requires
            old(self)@.len() == SIZE,
            o + 4 <= SIZE,
        ensures
            final(self)@.len() == SIZE,
            match with_list(old(self)@, have as int, o as int) {
                Some((d, b)) => r is Some && r->0 == b && final(self)@ == d && (b == have || 0 <= b
                    < JLBA),
                None => r is None,
            },
    {
        if have != 0 {
            return Some(have);
        }
        match self.balloc() {
            Some(b) => {
                w32(&mut self.data, o, b);
                Some(b)
            },
            None => None,
        }
    }

    fn note(&mut self, io: usize, k: usize, b: u32, ind: u32, dind: u32) -> (r: Option<(u32, u32)>)
        requires
            old(self)@.len() == SIZE,
            io + INO_SIZE <= SIZE,
            ind < NBLOCKS,
            dind < NBLOCKS,
        ensures
            final(self)@.len() == SIZE,
            match noted(
                Grow { d: old(self)@, ind: ind as int, dind: dind as int },
                io as int,
                k as int,
                b as int,
            ) {
                Some(g) => r is Some && final(self)@ == g.d && r->0 == (g.ind as u32, g.dind as u32)
                    && 0 <= g.ind < NBLOCKS && 0 <= g.dind < NBLOCKS,
                None => r is None,
            },
    {
        if k < 8 {
            w32(&mut self.data, io + 8 + 4 * k, b);
            return Some((ind, dind));
        }
        if k < 136 {
            return match self.list_block(ind, io + 40) {
                Some(l) => {
                    w32(&mut self.data, l as usize * BLOCK + 4 * (k - 8), b);
                    Some((l, dind))
                },
                None => None,
            };
        }
        let l1: usize = (k - 136) / 128;
        let l2: usize = (k - 136) % 128;
        if l1 >= 128 {
            return None;
        }
        match self.list_block(dind, io + 48) {
            Some(top) => {
                let o: usize = top as usize * BLOCK + 4 * l1;
                let have = r32(self.data.as_slice(), o);
                match self.list_block(have, o) {
                    Some(l) => {
                        if l >= NBLOCKS {
                            return None;
                        }
                        w32(&mut self.data, l as usize * BLOCK + 4 * l2, b);
                        Some((ind, top))
                    },
                    None => None,
                }
            },
            None => None,
        }
    }

    fn inode_grow(&mut self, ino: u32, data: &[u8]) -> (ok: bool)
        requires
            old(self)@.len() == SIZE,
            1 <= ino,
            ino_pos(ino as int) + INO_SIZE <= SIZE,
            data@.len() <= u32::MAX,
        ensures
            match grown(start(old(self)@), ino_pos(ino as int), data@, 0) {
                Some(d) => ok && final(self)@ == d,
                None => !ok,
            },
            final(self)@.len() == SIZE,
    {
        let io = Self::ino_off(ino);
        let len: usize = data.len();
        let mut ind: u32 = 0;
        let mut dind: u32 = 0;
        let mut k: usize = 0;
        let mut off: usize = 0;
        while off < len
            invariant
                self@.len() == SIZE,
                len == data@.len(),
                off == k * BLOCK || off == len,
                off < len ==> off == k * BLOCK,
                off <= len,
                k * BLOCK < len + BLOCK,
                off == len ==> k * BLOCK >= len,
                io == ino_pos(ino as int),
                io + INO_SIZE <= SIZE,
                ind < NBLOCKS,
                dind < NBLOCKS,
                grown(start(old(self)@), io as int, data@, 0) == grown(
                    Grow { d: self@, ind: ind as int, dind: dind as int },
                    io as int,
                    data@,
                    k as int,
                ),
            decreases len - off,
        {
            let b = match self.balloc() {
                Some(b) => b,
                None => {
                    return false;
                },
            };
            let n: usize = if len - off < BLOCK {
                len - off
            } else {
                BLOCK
            };
            let p = vstd::slice::slice_subrange(data, off, off + n);
            assert(p@ =~= piece(data@, k as int));
            store(&mut self.data, b as usize * BLOCK, p);
            match self.note(io, k, b, ind, dind) {
                Some((i, j)) => {
                    ind = i;
                    dind = j;
                },
                None => {
                    return false;
                },
            }
            off = off + n;
            k += 1;
        }
        w32(&mut self.data, io + 4, len as u32);
        true
    }
}

// ---- directories ----

/// Block and place of entry `e` of a directory.
pub open spec fn ent_block(d: Seq<u8>, i: int, e: int) -> int {
    dev::word(d, ino_pos(i) + 8 + 4 * (e / 16)) as int
}

pub open spec fn ent_pos(d: Seq<u8>, i: int, e: int) -> int {
    ent_block(d, i, e) * BLOCK + e % 16 * 32
}

pub open spec fn ent_count(d: Seq<u8>, i: int) -> int {
    size_of(d, i) as int / 32
}

/// The entry has a place on the image.
pub open spec fn ent_ok(d: Seq<u8>, i: int, e: int) -> bool {
    ent_block(d, i, e) < NBLOCKS
}

/// Where a search for an unused entry ends: at one, at an entry that has no
/// place, or at the end.
pub open spec fn unused(d: Seq<u8>, i: int, e: int) -> int
    decreases ent_count(d, i) - e,
{
    if e >= ent_count(d, i) || !ent_ok(d, i, e) || (ent_block(d, i, e) != 0 && d[ent_pos(d, i, e)] == 0) {
        e
    } else {
        unused(d, i, e + 1)
    }
}

/// A name and a number stored as an entry.
pub open spec fn ent_put(d: Seq<u8>, o: int, name: Seq<u8>, c: int) -> Seq<u8> {
    dev::with_word(put(d, o, name), o + NAME_LEN, c as u32)
}

/// A directory with one more entry, in the first unused place or a new block.
/// None where there is no room.
pub open spec fn entered(d: Seq<u8>, i: int, name: Seq<u8>, c: int) -> Option<Seq<u8>> {
    let n = ent_count(d, i);
    let e = unused(d, i, 0);
    let io = ino_pos(i);
    if size_of(d, i) > MAX_DIR || (e < n && !ent_ok(d, i, e)) {
        None
    } else if e < n {
        Some(ent_put(d, ent_pos(d, i, e), name, c))
    } else if n / 16 >= 8 {
        None
    } else {
        match grabbed(d) {
            None => None,
            Some((f, b)) => Some(
                ent_put(
                    dev::with_word(
                        dev::with_word(f, io + 8 + 4 * (n / 16), b as u32),
                        io + 4,
                        (n * 32 + BLOCK) as u32,
                    ),
                    b * BLOCK + n % 16 * 32,
                    name,
                    c,
                ),
            ),
        }
    }
}

/// A file added to a directory. None where there is no room.
pub open spec fn added(d: Seq<u8>, parent: int, name: Seq<u8>, data: Seq<u8>) -> Option<Seq<u8>> {
    match first_ino(d, 1) {
        None => None,
        Some(i) => match grown(start(ino_set(d, i, KIND_FILE, 0)), ino_pos(i), data, 0) {
            None => None,
            Some(e) => entered(e, parent, name, i),
        },
    }
}

impl Image {
    fn dir_add(&mut self, dir: u32, name: &[u8], child: u32) -> (ok: bool)
        requires
            old(self)@.len() == SIZE,
            1 <= dir,
            ino_pos(dir as int) + INO_SIZE <= SIZE,
            name@.len() <= NAME_LEN,
        ensures
            match entered(old(self)@, dir as int, name@, child as int) {
                Some(d) => ok && final(self)@ == d,
                None => !ok,
            },
            final(self)@.len() == SIZE,
    {
        let io = Self::ino_off(dir);
        let size: u32 = r32(self.data.as_slice(), io + 4);
        if size > MAX_DIR {
            return false;
        }
        let n: usize = size as usize / DIRENT_SIZE;
        let mut i: usize = 0;
        while i < n
            invariant
                *self == *old(self),
                self@.len() == SIZE,
                1 <= dir,
                io == ino_pos(dir as int),
                io + INO_SIZE <= SIZE,
                size == size_of(self@, dir as int),
                size <= MAX_DIR,
                n == ent_count(self@, dir as int),
                n <= 128,
                i <= n,
                name@.len() <= NAME_LEN,
                unused(self@, dir as int, 0) == unused(self@, dir as int, i as int),
            decreases n - i,
        {
            let b = r32(self.data.as_slice(), io + 8 + 4 * (i / 16));
            if b >= NBLOCKS {
                return false;
            }
            let o: usize = b as usize * BLOCK + i % 16 * 32;
            if b != 0 && self.data[o] == 0 {
                store(&mut self.data, o, name);
                w32(&mut self.data, o + NAME_LEN, child);
                return true;
            }
            i += 1;
        }
        let bi: usize = n / 16;
        if bi >= 8 {
            return false;
        }
        let b = match self.balloc() {
            Some(b) => b,
            None => {
                return false;
            },
        };
        w32(&mut self.data, io + 8 + 4 * bi, b);
        w32(&mut self.data, io + 4, (n * 32 + BLOCK) as u32);
        let o: usize = b as usize * BLOCK + n % 16 * 32;
        store(&mut self.data, o, name);
        w32(&mut self.data, o + NAME_LEN, child);
        true
    }

    fn try_add(&mut self, parent: u32, name: &[u8], data: &[u8]) -> (ok: bool)
        requires
            wf(old(self)@),
            is_ino(old(self)@, parent as int),
            name@.len() <= NAME_LEN,
            data@.len() <= u32::MAX,
        ensures
            match added(old(self)@, parent as int, name@, data@) {
                Some(d) => ok && final(self)@ == d,
                None => !ok,
            },
            final(self)@.len() == SIZE,
    {
        proof {
            lemma_ino_room(self@, parent as int);
        }
        let ino = match self.inode_alloc(KIND_FILE) {
            Some(i) => i,
            None => {
                return false;
            },
        };
        proof {
            lemma_ino_room(old(self)@, ino as int);
        }
        if !self.inode_grow(ino, data) {
            return false;
        }
        self.dir_add(parent, name, ino)
    }

    /// Whether a file can be added: there are an inode, blocks and an entry
    /// for it, and its name is not too long.
    pub fn fits(&self, parent: u32, name: &[u8], data: &[u8]) -> (r: bool)
        requires
            wf(self@),
        ensures
            r == (is_ino(self@, parent as int) && name@.len() <= NAME_LEN && data@.len() <= u32::MAX
                && added(self@, parent as int, name@, data@) is Some),
    {
        let n = r32(self.data.as_slice(), 32);
        if parent < 1 || parent > n || name.len() > NAME_LEN || data.len() as u64 > u32::MAX as u64 {
            return false;
        }
        let mut copy = Image { data: Vec::new() };
        let len: usize = self.data.len();
        let mut i: usize = 0;
        while i < len
            invariant
                len == self.data@.len(),
                i <= len,
                copy.data@ == self.data@.take(i as int),
            decreases len - i,
        {
            copy.data.push(self.data[i]);
            i += 1;
            assert(copy.data@ =~= self.data@.take(i as int));
        }
        assert(copy.data@ =~= self.data@);
        copy.try_add(parent, name, data)
    }

    /// Adds a file to a directory.
    pub fn add_file(&mut self, parent: u32, name: &[u8], data: &[u8])
        requires
            wf(old(self)@),
            is_ino(old(self)@, parent as int),
            name@.len() <= NAME_LEN,
            data@.len() <= u32::MAX,
            added(old(self)@, parent as int, name@, data@) is Some,
        ensures
            Some(final(self)@) == added(old(self)@, parent as int, name@, data@),
            final(self)@.len() == SIZE,
    {
        let _ = self.try_add(parent, name, data);
    }

    /// Whether the image starts with the name of the format.
    pub fn check_magic(&self) -> (r: bool)
        requires
            self@.len() == SIZE,
        ensures
            r == (self@.take(8) == magic()),
    {
        let m = r32(self.data.as_slice(), 0) == disk::MAGIC0 && r32(self.data.as_slice(), 4) == disk::MAGIC1;
        proof {
            lemma_magic(self@);
        }
        m
    }
}

/// Name of the format.
pub open spec fn magic() -> Seq<u8> {
    seq![0x4du8, 0x55u8, 0x53u8, 0x45u8, 0x46u8, 0x53u8, 0x30u8, 0x31u8]
}

pub proof fn lemma_magic(d: Seq<u8>)
    requires
        d.len() >= 8,
    ensures
        (d.take(8) == magic()) == (dev::word(d, 0) == disk::MAGIC0 && dev::word(d, 4) == disk::MAGIC1),
{
    let t = d.take(8);
    if t == magic() {
        assert(t[0] == d[0] && t[1] == d[1] && t[2] == d[2] && t[3] == d[3] && t[4] == d[4] && t[5]
            == d[5] && t[6] == d[6] && t[7] == d[7]);
    }
    if dev::word(d, 0) == disk::MAGIC0 && dev::word(d, 4) == disk::MAGIC1 {
        assert(t =~= magic());
    }
}

// ---- reading back ----

/// Every entry of a directory has a place on the image.
pub open spec fn dir_ok(d: Seq<u8>, i: int) -> bool {
    &&& size_of(d, i) <= MAX_DIR
    &&& forall|e: int| 0 <= e < ent_count(d, i) ==> #[trigger] ent_ok(d, i, e)
}

/// End of the name that starts at `o`: a zero, or the twenty-eighth byte.
pub open spec fn name_end(d: Seq<u8>, o: int, k: int) -> int
    decreases NAME_LEN - k,
{
    if k >= NAME_LEN || d[o + k] == 0 {
        k
    } else {
        name_end(d, o, k + 1)
    }
}

pub open spec fn name_at(d: Seq<u8>, o: int) -> Seq<u8> {
    d.subrange(o, o + name_end(d, o, 0))
}

/// The first entry from `e` on with this name.
pub open spec fn find(d: Seq<u8>, i: int, name: Seq<u8>, e: int) -> Option<int>
    decreases ent_count(d, i) - e,
{
    if e >= ent_count(d, i) {
        None
    } else if ent_block(d, i, e) != 0 && name_at(d, ent_pos(d, i, e)) == name {
        Some(e)
    } else {
        find(d, i, name, e + 1)
    }
}

/// The inode with a name in a directory.
pub open spec fn looked_up(d: Seq<u8>, parent: int, name: Seq<u8>) -> Option<u32> {
    if kind_of(d, parent) != KIND_DIR {
        None
    } else {
        match find(d, parent, name, 0) {
            Some(e) => Some(dev::word(d, ent_pos(d, parent, e) + NAME_LEN)),
            None => None,
        }
    }
}

pub proof fn lemma_name_end(d: Seq<u8>, o: int, k: int)
    requires
        0 <= k <= NAME_LEN,
    ensures
        k <= name_end(d, o, k) <= NAME_LEN,
    decreases NAME_LEN - k,
{
    if k < NAME_LEN && d[o + k] != 0 {
        lemma_name_end(d, o, k + 1);
    }
}

/// Names and inodes of the entries from `e` on.
pub open spec fn listing(d: Seq<u8>, i: int, e: int) -> Seq<(Seq<u8>, u32)>
    decreases ent_count(d, i) - e,
{
    if e >= ent_count(d, i) {
        Seq::empty()
    } else if ent_block(d, i, e) == 0 || d[ent_pos(d, i, e)] == 0 {
        listing(d, i, e + 1)
    } else {
        seq![
            (
                text::shown(name_at(d, ent_pos(d, i, e))),
                dev::word(d, ent_pos(d, i, e) + NAME_LEN),
            ),
        ] + listing(d, i, e + 1)
    }
}

pub open spec fn list_view(v: Seq<(Vec<u8>, u32)>) -> Seq<(Seq<u8>, u32)> {
    Seq::new(v.len(), |i: int| (v[i].0@, v[i].1))
}

// Three ways to the blocks of a file.

pub open spec fn low(a: int, b: int) -> int {
    if a <= b {
        a
    } else {
        b
    }
}

/// What a block adds to the bytes read so far.
pub open spec fn more(d: Seq<u8>, b: int, size: int, out: Seq<u8>) -> Seq<u8> {
    out + d.subrange(b * BLOCK, b * BLOCK + low(BLOCK as int, size - out.len()))
}

/// The blocks of the inode's own from `k` on.
pub open spec fn own_part(d: Seq<u8>, io: int, size: int, k: int, out: Seq<u8>) -> Seq<u8>
    decreases 8 - k,
{
    let b = dev::word(d, io + 8 + 4 * k) as int;
    if k >= 8 || out.len() >= size || b == 0 {
        out
    } else {
        own_part(d, io, size, k + 1, more(d, b, size, out))
    }
}

/// The blocks of a list from `k` on.
pub open spec fn list_part(d: Seq<u8>, l: int, size: int, k: int, out: Seq<u8>) -> Seq<u8>
    decreases 128 - k,
{
    let b = dev::word(d, l * BLOCK + 4 * k) as int;
    if k >= 128 || out.len() >= size || l == 0 || b == 0 {
        out
    } else {
        list_part(d, l, size, k + 1, more(d, b, size, out))
    }
}

/// Block `k` of a list of lists; 0 where it is missing.
pub open spec fn deep(d: Seq<u8>, top: int, k: int) -> int {
    let l = dev::word(d, top * BLOCK + 4 * (k / 128)) as int;
    if l == 0 {
        0
    } else {
        dev::word(d, l * BLOCK + 4 * (k % 128)) as int
    }
}

/// The blocks of a list of lists from `k` on.
pub open spec fn deep_part(d: Seq<u8>, top: int, size: int, k: int, out: Seq<u8>) -> Seq<u8>
    decreases 16384 - k,
{
    let b = deep(d, top, k);
    if k >= 16384 || out.len() >= size || top == 0 || b == 0 {
        out
    } else {
        deep_part(d, top, size, k + 1, more(d, b, size, out))
    }
}

/// The bytes of a file: those of its own blocks, of its list and of its list
/// of lists, each as far as it goes.
pub open spec fn content(d: Seq<u8>, i: int) -> Seq<u8> {
    let io = ino_pos(i);
    let size = size_of(d, i) as int;
    let a = own_part(d, io, size, 0, Seq::empty());
    let b = list_part(d, dev::word(d, io + 40) as int, size, 0, a);
    deep_part(d, dev::word(d, io + 48) as int, size, 0, b)
}

/// The blocks that reading comes to are on the image: of the inode's own from
/// `k` on, when `len` bytes were read.
pub open spec fn own_ok(d: Seq<u8>, io: int, size: int, k: int, len: int) -> bool
    decreases 8 - k,
{
    let b = dev::word(d, io + 8 + 4 * k) as int;
    k >= 8 || len >= size || b == 0 || (b < NBLOCKS && own_ok(
        d,
        io,
        size,
        k + 1,
        len + low(BLOCK as int, size - len),
    ))
}

pub open spec fn list_ok(d: Seq<u8>, l: int, size: int, k: int, len: int) -> bool
    decreases 128 - k,
{
    let b = dev::word(d, l * BLOCK + 4 * k) as int;
    k >= 128 || len >= size || l == 0 || b == 0 || (b < NBLOCKS && list_ok(
        d,
        l,
        size,
        k + 1,
        len + low(BLOCK as int, size - len),
    ))
}

pub open spec fn deep_ok(d: Seq<u8>, top: int, size: int, k: int, len: int) -> bool
    decreases 16384 - k,
{
    let l = dev::word(d, top * BLOCK + 4 * (k / 128)) as int;
    let b = deep(d, top, k);
    len >= size || top == 0 || (k < 16384 && l < NBLOCKS && b < NBLOCKS && (b == 0 || deep_ok(
        d,
        top,
        size,
        k + 1,
        len + low(BLOCK as int, size - len),
    )))
}

/// All that reading a file comes to is on the image.
pub open spec fn file_ok(d: Seq<u8>, i: int) -> bool {
    let io = ino_pos(i);
    let ind = dev::word(d, io + 40) as int;
    let top = dev::word(d, io + 48) as int;
    let size = size_of(d, i) as int;
    let a = own_part(d, io, size, 0, Seq::empty());
    let b = list_part(d, ind, size, 0, a);
    &&& 1 <= i
    &&& io + INO_SIZE <= SIZE
    &&& own_ok(d, io, size, 0, 0)
    &&& a.len() < size ==> ind < NBLOCKS && list_ok(d, ind, size, 0, a.len() as int)
    &&& b.len() < size ==> top < NBLOCKS && deep_ok(d, top, size, 0, b.len() as int)
}

/// What reading a file by its name gives.
pub open spec fn file_read(d: Seq<u8>, parent: int, name: Seq<u8>) -> Option<Seq<u8>> {
    match looked_up(d, parent, name) {
        Some(i) => if kind_of(d, i as int) == KIND_FILE {
            Some(content(d, i as int))
        } else {
            None
        },
        None => None,
    }
}

impl Image {
    fn name_len(&self, o: usize) -> (n: usize)
        requires
            o + DIRENT_SIZE <= self@.len(),
        ensures
            n == name_end(self@, o as int, 0),
            n <= NAME_LEN,
    {
        let len: usize = self.data.len();
        let mut n: usize = 0;
        while n < NAME_LEN && self.data[o + n] != 0
            invariant
                len == self@.len(),
                o + DIRENT_SIZE <= len,
                n <= NAME_LEN,
                name_end(self@, o as int, 0) == name_end(self@, o as int, n as int),
            decreases NAME_LEN - n,
        {
            n += 1;
        }
        n
    }

    fn named(&self, o: usize, name: &[u8]) -> (r: bool)
        requires
            o + DIRENT_SIZE <= self@.len(),
        ensures
            r == (name_at(self@, o as int) == name@),
    {
        let len: usize = self.data.len();
        let n = self.name_len(o);
        if n != name.len() {
            return false;
        }
        let mut i: usize = 0;
        while i < n
            invariant
                len == self@.len(),
                o + DIRENT_SIZE <= len,
                i <= n <= NAME_LEN,
                n == name@.len(),
                n == name_end(self@, o as int, 0),
                forall|k: int| 0 <= k < i ==> self@[o + k] == #[trigger] name@[k],
            decreases n - i,
        {
            if self.data[o + i] != name[i] {
                assert(name_at(self@, o as int)[i as int] != name@[i as int]);
                return false;
            }
            i += 1;
        }
        assert(name_at(self@, o as int) =~= name@);
        true
    }

    /// The inode with a name in a directory.
    pub fn lookup(&self, parent: u32, name: &[u8]) -> (r: Option<u32>)
        requires
            self@.len() == SIZE,
            1 <= parent,
            ino_pos(parent as int) + INO_SIZE <= SIZE,
            kind_of(self@, parent as int) == KIND_DIR ==> dir_ok(self@, parent as int),
        ensures
            r == looked_up(self@, parent as int, name@),
    {
        let io = Self::ino_off(parent);
        if self.data[io] != KIND_DIR {
            return None;
        }
        let n: usize = r32(self.data.as_slice(), io + 4) as usize / DIRENT_SIZE;
        let mut i: usize = 0;
        while i < n
            invariant
                self@.len() == SIZE,
                1 <= parent,
                io == ino_pos(parent as int),
                io + INO_SIZE <= SIZE,
                kind_of(self@, parent as int) == KIND_DIR,
                dir_ok(self@, parent as int),
                n == ent_count(self@, parent as int),
                n <= 128,
                i <= n,
                find(self@, parent as int, name@, 0) == find(self@, parent as int, name@, i as int),
            decreases n - i,
        {
            assert(ent_ok(self@, parent as int, i as int));
            let b = r32(self.data.as_slice(), io + 8 + 4 * (i / 16));
            let o: usize = b as usize * BLOCK + i % 16 * 32;
            if b != 0 && self.named(o, name) {
                return Some(r32(self.data.as_slice(), o + NAME_LEN));
            }
            i += 1;
        }
        None
    }

    /// Names and inodes in a directory.
    pub fn list(&self, parent: u32) -> (v: Vec<(Vec<u8>, u32)>)
        requires
            self@.len() == SIZE,
            1 <= parent,
            ino_pos(parent as int) + INO_SIZE <= SIZE,
            dir_ok(self@, parent as int),
        ensures
            list_view(v@) == listing(self@, parent as int, 0),
    {
        let io = Self::ino_off(parent);
        let mut v: Vec<(Vec<u8>, u32)> = Vec::new();
        let n: usize = r32(self.data.as_slice(), io + 4) as usize / DIRENT_SIZE;
        let mut i: usize = 0;
        let ghost p = parent as int;
        assert(list_view(v@) + listing(self@, p, 0) =~= listing(self@, p, 0));
        while i < n
            invariant
                self@.len() == SIZE,
                1 <= parent,
                p == parent,
                io == ino_pos(p),
                io + INO_SIZE <= SIZE,
                dir_ok(self@, p),
                n == ent_count(self@, p),
                n <= 128,
                i <= n,
                list_view(v@) + listing(self@, p, i as int) == listing(self@, p, 0),
            decreases n - i,
        {
            assert(ent_ok(self@, p, i as int));
            let b = r32(self.data.as_slice(), io + 8 + 4 * (i / 16));
            let o: usize = b as usize * BLOCK + i % 16 * 32;
            if b != 0 && self.data[o] != 0 {
                let k = self.name_len(o);
                let name = text::show(vstd::slice::slice_subrange(self.data.as_slice(), o, o + k));
                let c = r32(self.data.as_slice(), o + NAME_LEN);
                let ghost before = list_view(v@);
                let ghost item = (name@, c);
                v.push((name, c));
                proof {
                    assert(list_view(v@) =~= before.push(item));
                    assert(before + (seq![item] + listing(self@, p, i + 1)) =~= before.push(item) + listing(
                        self@,
                        p,
                        i + 1,
                    ));
                }
            }
            i += 1;
        }
        assert(list_view(v@) + Seq::<(Seq<u8>, u32)>::empty() =~= list_view(v@));
        v
    }

    /// Adds the bytes of a block to what was read.
    fn take_block(&self, out: &mut Vec<u8>, b: u32, size: usize)
        requires
            self@.len() == SIZE,
            b < NBLOCKS,
            old(out)@.len() < size,
        ensures
            final(out)@ == more(self@, b as int, size as int, old(out)@),
            final(out)@.len() <= size,
            final(out)@.len() > old(out)@.len(),
            final(out)@.len() == old(out)@.len() + low(BLOCK as int, size - old(out)@.len()),
    {
        let got: usize = out.len();
        let n: usize = if size - got < BLOCK {
            size - got
        } else {
            BLOCK
        };
        let o: usize = b as usize * BLOCK;
        let mut i: usize = 0;
        let ghost o0 = out@;
        assert(out@ =~= o0 + self@.subrange(o as int, o as int));
        while i < n
            invariant
                self@.len() == SIZE,
                o == b * BLOCK,
                b < NBLOCKS,
                i <= n <= BLOCK,
                out@ == o0 + self@.subrange(o as int, o + i),
            decreases n - i,
        {
            out.push(self.data[o + i]);
            i += 1;
            assert(out@ =~= o0 + self@.subrange(o as int, o + i));
        }
    }

    /// The bytes of a file; None where there is no such file.
    pub fn read_file(&self, parent: u32, name: &[u8]) -> (r: Option<Vec<u8>>)
        requires
            self@.len() == SIZE,
            1 <= parent,
            ino_pos(parent as int) + INO_SIZE <= SIZE,
            kind_of(self@, parent as int) == KIND_DIR ==> dir_ok(self@, parent as int),
            looked_up(self@, parent as int, name@) matches Some(i) ==> 1 <= i && ino_pos(i as int) + INO_SIZE
                <= SIZE && (kind_of(self@, i as int) == KIND_FILE ==> file_ok(self@, i as int)),
        ensures
            match r {
                Some(v) => file_read(self@, parent as int, name@) == Some(v@),
                None => file_read(self@, parent as int, name@) is None,
            },
    {
        let ino = match self.lookup(parent, name) {
            Some(i) => i,
            None => {
                return None;
            },
        };
        let io = Self::ino_off(ino);
        if self.data[io] != KIND_FILE {
            return None;
        }
        let size: usize = r32(self.data.as_slice(), io + 4) as usize;
        let mut out: Vec<u8> = Vec::new();
        assert(out@ =~= Seq::empty());
        let mut k: usize = 0;
        let mut going = true;
        let ghost own = own_part(self@, io as int, size as int, 0, Seq::empty());
        while k < 8 && going && out.len() < size
            invariant
                self@.len() == SIZE,
                file_ok(self@, ino as int),
                io == ino_pos(ino as int),
                k <= 8,
                out@.len() <= size,
                size == size_of(self@, ino as int),
                going ==> own_ok(self@, io as int, size as int, k as int, out@.len() as int),
                own == if going {
                    own_part(self@, io as int, size as int, k as int, out@)
                } else {
                    out@
                },
            decreases 8 - k,
                (if going {
                    1int
                } else {
                    0int
                }),
        {
            let b = r32(self.data.as_slice(), io + 8 + 4 * k);
            if b == 0 {
                going = false;
            } else {
                self.take_block(&mut out, b, size);
                k += 1;
            }
        }
        assert(out@ == own);
        let ind = r32(self.data.as_slice(), io + 40);
        k = 0;
        going = ind != 0;
        let ghost listed = list_part(self@, ind as int, size as int, 0, own);
        while k < 128 && going && out.len() < size
            invariant
                self@.len() == SIZE,
                file_ok(self@, ino as int),
                io == ino_pos(ino as int),
                ind == dev::word(self@, io + 40),
                going ==> ind != 0,
                k <= 128,
                out@.len() <= size,
                size == size_of(self@, ino as int),
                going && out@.len() < size ==> ind < NBLOCKS && list_ok(
                    self@,
                    ind as int,
                    size as int,
                    k as int,
                    out@.len() as int,
                ),
                listed == if going {
                    list_part(self@, ind as int, size as int, k as int, out@)
                } else {
                    out@
                },
            decreases 128 - k,
                (if going {
                    1int
                } else {
                    0int
                }),
        {
            let b = r32(self.data.as_slice(), ind as usize * BLOCK + 4 * k);
            if b == 0 {
                going = false;
            } else {
                self.take_block(&mut out, b, size);
                k += 1;
            }
        }
        assert(out@ == listed);
        let top = r32(self.data.as_slice(), io + 48);
        k = 0;
        going = top != 0;
        let ghost all = deep_part(self@, top as int, size as int, 0, listed);
        while k < 16384 && going && out.len() < size
            invariant
                self@.len() == SIZE,
                file_ok(self@, ino as int),
                io == ino_pos(ino as int),
                top == dev::word(self@, io + 48),
                going ==> top != 0,
                k <= 16384,
                out@.len() <= size,
                size == size_of(self@, ino as int),
                going && out@.len() < size ==> top < NBLOCKS && deep_ok(
                    self@,
                    top as int,
                    size as int,
                    k as int,
                    out@.len() as int,
                ),
                all == if going {
                    deep_part(self@, top as int, size as int, k as int, out@)
                } else {
                    out@
                },
            decreases 16384 - k,
                (if going {
                    1int
                } else {
                    0int
                }),
        {
            let l = r32(self.data.as_slice(), top as usize * BLOCK + 4 * (k / 128));
            if l == 0 {
                going = false;
            } else {
                let b = r32(self.data.as_slice(), l as usize * BLOCK + 4 * (k % 128));
                if b == 0 {
                    going = false;
                } else {
                    self.take_block(&mut out, b, size);
                    k += 1;
                }
            }
        }
        Some(out)
    }
}

// ---- an empty image ----

/// Inodes of an image for so many files.
pub open spec fn inodes_for(nfiles: int) -> int {
    nfiles + SPARE
}

/// Words of the description, from byte 8 on: block size, blocks, bitmap and
/// its blocks, inode table and its blocks, inodes, first data block, root
/// inode, version, check needed, journal and its blocks.
pub open spec fn description(n: int) -> Seq<u32> {
    seq![
        BLOCK as u32,
        NBLOCKS,
        BMAP_LBA,
        BMAP_BLOCKS,
        INO_LBA,
        ((n + 7) / 8) as u32,
        n as u32,
        data_lba(n) as u32,
        ROOT_INO,
        2u32,
        1u32,
        JLBA,
        JB,
    ]
}

/// An image with its description and nothing else, of which the first `k`
/// words are there.
pub open spec fn described(n: int, k: int) -> Seq<u8> {
    Seq::new(
        SIZE as nat,
        |i: int|
            if i < 8 {
                magic()[i]
            } else if i < 8 + 4 * k {
                dev::byte(description(n)[(i - 8) / 4], (i - 8) % 4)
            } else {
                0
            },
    )
}

/// Blocks from `a` up to `b` marked in use.
pub open spec fn marked_range(d: Seq<u8>, a: int, b: int) -> Seq<u8>
    decreases b - a,
{
    if b <= a {
        d
    } else {
        marked(marked_range(d, a, b - 1), b - 1)
    }
}

/// The blocks before those for data and those of the journal are in use.
pub open spec fn reserved(n: int) -> Seq<u8> {
    marked_range(
        marked_range(described(n, 13), 0, data_lba(n)),
        JLBA as int,
        JLBA + JB,
    )
}

pub open spec fn bin_name() -> Seq<u8> {
    seq![0x62u8, 0x69u8, 0x6eu8]
}

/// An empty image: a root directory with one for programs in it.
pub open spec fn fresh(nfiles: int) -> Seq<u8> {
    let n = inodes_for(nfiles);
    entered(
        ino_set(
            ino_set(reserved(n), ROOT_INO as int, KIND_DIR, 0),
            BIN_INO as int,
            KIND_DIR,
            0,
        ),
        ROOT_INO as int,
        bin_name(),
        BIN_INO as int,
    )->0
}

/// Marking a block changes its bit alone.
pub proof fn lemma_marked(d: Seq<u8>, b: int, x: int)
    requires
        d.len() == SIZE,
        0 <= b < NBLOCKS,
        0 <= x < NBLOCKS,
    ensures
        used(marked(d, b), x) == (x == b || used(d, x)),
        forall|i: int| i != BLOCK + b / 8 ==> #[trigger] marked(d, b)[i] == d[i] || !(0 <= i < SIZE),
        marked(d, b).len() == SIZE,
{
    sound::law_bits(d[BLOCK + b / 8], b % 8, x % 8);
    if x / 8 == b / 8 && x % 8 == b % 8 {
        assert(x == b);
    }
}

proof fn lemma_marked_range(d: Seq<u8>, a: int, b: int)
    requires
        d.len() == SIZE,
        0 <= a,
        b <= NBLOCKS,
    ensures
        marked_range(d, a, b).len() == SIZE,
        forall|x: int|
            0 <= x < NBLOCKS ==> #[trigger] used(marked_range(d, a, b), x) == (a <= x < b || used(d, x)),
        forall|i: int|
            0 <= i < BLOCK || 3 * BLOCK <= i < SIZE ==> #[trigger] marked_range(d, a, b)[i] == d[i],
    decreases b - a,
{
    if b > a {
        lemma_marked_range(d, a, b - 1);
        let e = marked_range(d, a, b - 1);
        assert forall|x: int| 0 <= x < NBLOCKS implies #[trigger] used(marked_range(d, a, b), x) == (a <= x
            < b || used(d, x)) by {
            lemma_marked(e, b - 1, x);
        }
        lemma_marked(e, b - 1, 0);
        assert forall|i: int| 0 <= i < BLOCK || 3 * BLOCK <= i < SIZE implies #[trigger] marked_range(
            d,
            a,
            b,
        )[i] == d[i] by {
            assert(marked(e, b - 1)[i] == e[i]);
        }
    }
}

/// Word `k` of the description.
pub proof fn lemma_described(n: int, k: int)
    requires
        0 <= k < 13,
    ensures
        dev::word(described(n, 13), 8 + 4 * k) == description(n)[k],
{
    let d = described(n, 13);
    let v = description(n)[k];
    assert(d =~= dev::with_word(d, 8 + 4 * k, v)) by {
        assert forall|i: int| 0 <= i < SIZE implies d[i] == dev::with_word(d, 8 + 4 * k, v)[i] by {
            if 8 + 4 * k <= i < 8 + 4 * k + 4 {
                assert((i - 8) / 4 == k);
                assert((i - 8) % 4 == i - (8 + 4 * k));
            }
        }
    }
    dev::law_word_stored(d, 8 + 4 * k, v, 8 + 4 * k);
}

/// The description, the table and the bitmap of an image that holds nothing.
pub proof fn lemma_reserved(n: int)
    requires
        2 <= n,
        data_lba(n) < JLBA,
        n <= u32::MAX,
    ensures
        reserved(n).len() == SIZE,
        ninodes(reserved(n)) == n,
        wf(reserved(n)),
        !used(reserved(n), data_lba(n)),
        forall|i: int| 3 * BLOCK <= i < SIZE ==> #[trigger] reserved(n)[i] == 0,
        forall|i: int| 0 <= i < BLOCK ==> #[trigger] reserved(n)[i] == described(n, 13)[i],
{
    let d = described(n, 13);
    let e = marked_range(d, 0, data_lba(n));
    lemma_marked_range(d, 0, data_lba(n));
    lemma_marked_range(e, JLBA as int, JLBA + JB);
    lemma_described(n, 6);
    let r = reserved(n);
    assert(r[32] == d[32] && r[33] == d[33] && r[34] == d[34] && r[35] == d[35]) by {
        assert(e[32] == d[32] && e[33] == d[33] && e[34] == d[34] && e[35] == d[35]);
    }
    assert forall|x: int| 0 <= x < NBLOCKS implies !#[trigger] used(d, x) by {
        assert(d[BLOCK + x / 8] == 0);
    }
    assert forall|i: int| 3 * BLOCK <= i < SIZE implies #[trigger] r[i] == 0 by {
        assert(e[i] == d[i]);
    }
    assert forall|i: int| 0 <= i < BLOCK implies #[trigger] r[i] == d[i] by {
        assert(e[i] == d[i]);
    }
}

/// What an inode's change leaves alone.
pub proof fn lemma_ino_set(d: Seq<u8>, i: int, kind: u8, size: u32)
    requires
        wf(d),
        is_ino(d, i),
    ensures
        wf(ino_set(d, i, kind, size)),
        ninodes(ino_set(d, i, kind, size)) == ninodes(d),
        kind_of(ino_set(d, i, kind, size), i) == kind,
        size_of(ino_set(d, i, kind, size), i) == size,
        forall|j: int|
            0 <= j < SIZE && !(ino_pos(i) <= j < ino_pos(i) + INO_SIZE) ==> #[trigger] ino_set(
                d,
                i,
                kind,
                size,
            )[j] == d[j],
{
    lemma_ino_room(d, i);
    let o = ino_pos(i);
    let a = put(d, o, seq![kind, 0u8, 0u8, 0u8]);
    let b = dev::with_word(a, o + 4, size);
    let e = ino_set(d, i, kind, size);
    dev::law_word_stored(a, o + 4, size, o + 4);
    dev::law_word_stored(b, o + 44, 1, o + 4);
    assert(e[32] == d[32] && e[33] == d[33] && e[34] == d[34] && e[35] == d[35]);
    assert forall|x: int| 0 <= x < data_lba(ninodes(d)) implies #[trigger] used(e, x) by {
        assert(used(d, x));
        assert(e[BLOCK + x / 8] == d[BLOCK + x / 8]);
    }
}

impl Image {
    /// An empty image with inodes for so many files and some to spare: a root
    /// directory, and one for programs in it.
    pub fn new(nfiles: usize) -> (img: Image)
        requires
            nfiles <= MAX_FILES,
        ensures
            img@ == fresh(nfiles as int),
            wf(img@),
    {
        proof {
            laws::law_fresh(nfiles as int);
        }
        let n: u32 = nfiles as u32 + SPARE;
        let ino_blocks: u32 = (n + 7) / INODES_PER_BLOCK;
        let first: u32 = INO_LBA + ino_blocks;
        let ghost nn = inodes_for(nfiles as int);
        let mut img = Image { data: vec![0u8; SIZE] };
        let name: [u8; 8] = [0x4d, 0x55, 0x53, 0x45, 0x46, 0x53, 0x30, 0x31];
        assert(name@ =~= magic());
        store(&mut img.data, 0, name.as_slice());
        let words: [u32; 13] = [
            BLOCK as u32,
            NBLOCKS,
            BMAP_LBA,
            BMAP_BLOCKS,
            INO_LBA,
            ino_blocks,
            n,
            first,
            ROOT_INO,
            2,
            1,
            JLBA,
            JB,
        ];
        assert(words@ =~= description(nn));
        let mut j: usize = 0;
        assert(img@ =~= described(nn, 0));
        while j < 13
            invariant
                j <= 13,
                words@ == description(nn),
                img@ == described(nn, j as int),
            decreases 13 - j,
        {
            w32(&mut img.data, 8 + 4 * j, words[j]);
            j += 1;
            assert(img@ =~= described(nn, j as int)) by {
                assert forall|i: int| 0 <= i < SIZE implies img@[i] == described(nn, j as int)[i] by {
                    if 8 + 4 * (j - 1) <= i < 8 + 4 * j {
                        assert((i - 8) / 4 == j - 1);
                        assert((i - 8) % 4 == i - (8 + 4 * (j - 1)));
                    }
                }
            }
        }
        let ghost d0 = img@;
        let mut b: u32 = 0;
        while b < first
            invariant
                first <= JLBA,
                b <= first,
                d0.len() == SIZE,
                img@.len() == SIZE,
                img@ == marked_range(d0, 0, b as int),
            decreases first - b,
        {
            img.set_used(b);
            b += 1;
        }
        let ghost d1 = img@;
        b = JLBA;
        while b < JLBA + JB
            invariant
                JLBA <= b <= JLBA + JB,
                img@.len() == SIZE,
                img@ == marked_range(d1, JLBA as int, b as int),
            decreases JLBA + JB - b,
        {
            img.set_used(b);
            b += 1;
        }
        proof {
            lemma_reserved(nn);
        }
        assert(img@ == reserved(nn));
        img.inode_set(ROOT_INO, KIND_DIR, 0);
        proof {
            lemma_ino_set(reserved(nn), 1, KIND_DIR, 0);
        }
        let ghost d2 = img@;
        proof {
            assert(kind_of(d2, 1) != 0);
            assert(kind_of(d2, 2) == 0);
            assert(first_ino(d2, 1) == first_ino(d2, 2));
        }
        let _ = img.inode_alloc(KIND_DIR);
        proof {
            lemma_ino_set(d2, 2, KIND_DIR, 0);
        }
        let ghost d3 = img@;
        let bin: [u8; 3] = [0x62, 0x69, 0x6e];
        assert(bin@ =~= bin_name());
        proof {
            lemma_empty_root(d3, nn);
        }
        let _ = img.dir_add(ROOT_INO, bin.as_slice(), BIN_INO);
        img
    }
}

/// There is room for the first entry of an empty directory.
pub proof fn lemma_empty_root(d: Seq<u8>, n: int)
    requires
        n >= 2,
        data_lba(n) < JLBA,
        n <= u32::MAX,
        d == ino_set(ino_set(reserved(n), 1, KIND_DIR, 0), 2, KIND_DIR, 0),
    ensures
        entered(d, 1, bin_name(), 2) is Some,
{
    lemma_reserved(n);
    let r = reserved(n);
    let e = ino_set(r, 1, KIND_DIR, 0);
    lemma_ino_set(r, 1, KIND_DIR, 0);
    lemma_ino_set(e, 2, KIND_DIR, 0);
    let b = data_lba(n);
    assert(ino_pos(1) == 1536 && ino_pos(2) == 1600);
    assert(!used(d, b)) by {
        assert(d[BLOCK + b / 8] == e[BLOCK + b / 8] && e[BLOCK + b / 8] == r[BLOCK + b / 8]);
    }
    lemma_free_exists(d, 0, b);
    assert(size_of(d, 1) == 0) by {
        assert(d[1540] == e[1540] && d[1541] == e[1541] && d[1542] == e[1542] && d[1543] == e[1543]);
    }
}

/// A free block that is not of the journal is found, or one before it.
pub proof fn lemma_free_exists(d: Seq<u8>, a: int, b: int)
    requires
        0 <= a <= b < JLBA,
        !used(d, b),
    ensures
        first_free(d, a) is Some,
    decreases b - a,
{
    if a < b && used(d, a) {
        lemma_free_exists(d, a + 1, b);
    }
}

} // verus!
