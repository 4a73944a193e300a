//! The disk file system.
//!
//! Sector 0 describes the rest: a bitmap with a bit per block, an inode table
//! with eight inodes per sector, and data blocks. An inode has eight blocks of
//! its own and one block that lists a hundred and twenty-eight more. A
//! directory is a file of entries of thirty-two bytes: a name and an inode
//! number.
use crate::fs::blk;
use crate::fs::blk::Blk;
use crate::fs::dev;
use crate::fs::dev::{Dev, DevV, SECTOR};
use crate::fs::text;
use vstd::prelude::*;

verus! {

broadcast use {blk::lemma_accessed_none, blk::lemma_accessed_on};

pub const KIND_FILE: u8 = 1;

pub const KIND_DIR: u8 = 2;

pub const NAME_LEN: usize = 28;

pub const DENT: usize = 32;

pub const INO_SIZE: usize = 64;

/// Blocks a file can have: eight of its own and those of the list.
pub const MAX_BLOCKS: u32 = 136;

/// Where things are.
#[derive(Clone, Copy, PartialEq, Eq, Structural, Debug)]
pub struct Geo {
    pub nblocks: u32,
    pub bmap_lba: u32,
    pub ino_lba: u32,
    pub ninodes: u32,
    pub root: u32,
}

impl Geo {
    /// Every sector of the bitmap and of the inode table has a number.
    pub open spec fn wf(self) -> bool {
        &&& self.bmap_lba + self.nblocks / 4096 <= u32::MAX
        &&& self.ino_lba + self.ninodes / 8 <= u32::MAX
    }
}

/// A sector by its distance from another; numbers begin again behind the last.
pub open spec fn sector_at(lba: u32, n: int) -> int {
    if lba + n > u32::MAX {
        lba + n - 0x1_0000_0000
    } else {
        lba + n
    }
}

pub struct Disk {
    pub blk: Blk,
    pub geo: Geo,
    pub mounted: bool,
}

impl Disk {
    pub open spec fn wf(&self) -> bool {
        self.blk.wf() && !self.blk.jnl.on && blk::held(self.blk.cache().slots, self.blk.dev@)
    }

    /// Sectors on the device.
    pub open spec fn d(&self) -> DevV {
        self.blk.dev@
    }
}

/// A disk that is not mounted.
pub fn new(dev: Dev) -> (s: Disk)
    requires
        dev@.wf(),
        dev@.secs.len() <= u32::MAX,
    ensures
        s.wf(),
        s.d() == dev@,
        s.geo == (Geo { nblocks: 0, bmap_lba: 0, ino_lba: 0, ninodes: 0, root: 1 }),
        !s.mounted,
        s.blk.stats == (blk::Stats { hits: 0, miss: 0, rd: 0, wr: 0 }),
{
    Disk {
        blk: blk::new(dev),
        geo: Geo { nblocks: 0, bmap_lba: 0, ino_lba: 0, ninodes: 0, root: 1 },
        mounted: false,
    }
}

/// Another disk that holds the same.
pub fn copy(s: &Disk) -> (c: Disk)
    requires
        s.wf(),
    ensures
        c.wf(),
        c.d() == s.d(),
        c.geo == s.geo,
        c.mounted == s.mounted,
{
    Disk { blk: blk::new(dev::copy(&s.blk.dev)), geo: s.geo, mounted: s.mounted }
}

/// Nothing but what the device holds may have changed, and the cache as sectors
/// are read and written through it.
pub open spec fn kept(a: &Disk, b: &Disk) -> bool {
    b.wf() && b.geo == a.geo && b.mounted == a.mounted && blk::accessed(a.blk, b.blk)
}

// ---- sectors ----

fn load(s: &mut Disk, lba: u32) -> (r: [u8; SECTOR])
    requires
        old(s).wf(),
    ensures
        kept(old(s), final(s)),
        final(s).d() == old(s).d(),
        r@ == old(s).d().at(lba as int),
        r@.len() == SECTOR,
{
    let mut r: [u8; SECTOR] = [0; SECTOR];
    assert(r@ =~= dev::zeros());
    blk::read(&mut s.blk, lba, &mut r);
    proof {
        blk::lemma_read_held(old(s).blk.cache(), old(s).d(), lba);
        blk::lemma_accessed_read(old(s).blk, s.blk, lba);
    }
    r
}

fn store(s: &mut Disk, lba: u32, data: &[u8; SECTOR])
    requires
        old(s).wf(),
    ensures
        kept(old(s), final(s)),
        final(s).d() == old(s).d().put(lba, data@),
{
    if (lba as u64) < dev::capacity_sectors(&s.blk.dev) {
        blk::write(&mut s.blk, lba, data);
        proof {
            blk::lemma_write_held(old(s).blk.cache(), old(s).d(), lba, data@);
            blk::lemma_accessed_write(old(s).blk, s.blk, lba, data@);
        }
    }
}

// ---- inodes ----

#[verifier::ext_equal]
pub struct InoV {
    pub kind: u8,
    pub size: u32,
    pub direct: Seq<u32>,
    pub indirect: u32,
}

#[derive(Clone, Copy)]
pub struct Ino {
    pub kind: u8,
    pub size: u32,
    pub direct: [u32; 8],
    pub indirect: u32,
}

impl View for Ino {
    type V = InoV;

    open spec fn view(&self) -> InoV {
        InoV { kind: self.kind, size: self.size, direct: self.direct@, indirect: self.indirect }
    }
}

/// Sector of an inode.
pub open spec fn ino_sector(g: Geo, i: u32) -> int {
    sector_at(g.ino_lba, (i - 1) / 8)
}

/// Offset of an inode in its sector.
pub open spec fn ino_off(i: u32) -> int {
    (i - 1) % 8 * INO_SIZE
}

/// The inode at an offset of a sector.
pub open spec fn ino_in(b: Seq<u8>, off: int) -> InoV {
    InoV {
        kind: b[off],
        size: dev::word(b, off + 4),
        direct: Seq::new(8, |k: int| dev::word(b, off + 8 + k * 4)),
        indirect: dev::word(b, off + 40),
    }
}

pub open spec fn is_kind(k: u8) -> bool {
    k == KIND_FILE || k == KIND_DIR
}

/// An inode in use.
pub open spec fn ino_at(d: DevV, g: Geo, i: u32) -> Option<InoV> {
    if i == 0 || i > g.ninodes {
        None
    } else {
        let r = ino_in(d.at(ino_sector(g, i)), ino_off(i));
        if is_kind(r.kind) {
            Some(r)
        } else {
            None
        }
    }
}

/// A sector with the inode at an offset replaced: kind, three zeros, size,
/// blocks, list. The rest of its space stays.
pub open spec fn ino_stored(b: Seq<u8>, off: int, r: InoV) -> Seq<u8> {
    Seq::new(
        b.len(),
        |x: int|
            if x == off {
                r.kind
            } else if off < x < off + 4 {
                0
            } else if off + 4 <= x < off + 8 {
                dev::byte(r.size, x - off - 4)
            } else if off + 8 <= x < off + 40 {
                dev::byte(r.direct[(x - off - 8) / 4], (x - off - 8) % 4)
            } else if off + 40 <= x < off + 44 {
                dev::byte(r.indirect, x - off - 40)
            } else {
                b[x]
            },
    )
}

pub open spec fn ino_put(d: DevV, g: Geo, i: u32, r: InoV) -> DevV {
    let s = ino_sector(g, i);
    d.put(s as u32, ino_stored(d.at(s), ino_off(i), r))
}

fn ino_pos(g: &Geo, i: u32) -> (r: (u32, usize))
    requires
        1 <= i <= g.ninodes,
    ensures
        r.0 == ino_sector(*g, i),
        r.1 == ino_off(i),
        r.1 + INO_SIZE <= SECTOR,
{
    (g.ino_lba.wrapping_add((i - 1) / 8), ((i - 1) % 8) as usize * INO_SIZE)
}

fn decode_ino(b: &[u8; SECTOR], off: usize) -> (r: Ino)
    requires
        off + INO_SIZE <= SECTOR,
    ensures
        r@ == ino_in(b@, off as int),
{
    let mut direct: [u32; 8] = [0; 8];
    let mut k: usize = 0;
    while k < 8
        invariant
            off + INO_SIZE <= SECTOR,
            k <= 8,
            forall|x: int| 0 <= x < k ==> #[trigger] direct@[x] == dev::word(b@, off + 8 + x * 4),
        decreases 8 - k,
    {
        direct[k] = dev::get32(b, off + 8 + k * 4);
        k += 1;
    }
    let r = Ino {
        kind: b[off],
        size: dev::get32(b, off + 4),
        direct,
        indirect: dev::get32(b, off + 40),
    };
    assert(r@.direct =~= ino_in(b@, off as int).direct);
    r
}

fn get_ino(s: &mut Disk, i: u32) -> (r: Option<Ino>)
    requires
        old(s).wf(),
    ensures
        kept(old(s), final(s)),
        final(s).d() == old(s).d(),
        match r {
            Some(x) => ino_at(old(s).d(), old(s).geo, i) == Some(x@),
            None => ino_at(old(s).d(), old(s).geo, i) is None,
        },
{
    if i == 0 || i > s.geo.ninodes {
        return None;
    }
    let (lba, off) = ino_pos(&s.geo, i);
    let b = load(s, lba);
    let r = decode_ino(&b, off);
    if r.kind != KIND_FILE && r.kind != KIND_DIR {
        return None;
    }
    Some(r)
}

fn encode_ino(b: &mut [u8; SECTOR], off: usize, r: &Ino)
    requires
        off + INO_SIZE <= SECTOR,
    ensures
        final(b)@ == ino_stored(old(b)@, off as int, r@),
{
    b[off] = r.kind;
    b[off + 1] = 0;
    b[off + 2] = 0;
    b[off + 3] = 0;
    dev::put32(b, off + 4, r.size);
    let ghost b1 = b@;
    let mut k: usize = 0;
    while k < 8
        invariant
            off + INO_SIZE <= SECTOR,
            k <= 8,
            b1.len() == SECTOR,
            b@.len() == SECTOR,
            forall|x: int|
                0 <= x < SECTOR ==> #[trigger] b@[x] == if off + 8 <= x < off + 8 + 4 * k {
                    dev::byte(r.direct@[(x - off - 8) / 4], (x - off - 8) % 4)
                } else {
                    b1[x]
                },
        decreases 8 - k,
    {
        dev::put32(b, off + 8 + k * 4, r.direct[k]);
        k += 1;
    }
    dev::put32(b, off + 40, r.indirect);
    assert(b@ =~= ino_stored(old(b)@, off as int, r@));
}

fn put_ino(s: &mut Disk, i: u32, r: &Ino)
    requires
        old(s).wf(),
        1 <= i <= old(s).geo.ninodes,
    ensures
        kept(old(s), final(s)),
        final(s).d() == ino_put(old(s).d(), old(s).geo, i, r@),
{
    let (lba, off) = ino_pos(&s.geo, i);
    let mut b = load(s, lba);
    encode_ino(&mut b, off, r);
    store(s, lba, &b);
}

// ---- the bitmap ----

pub open spec fn pow2(k: int) -> int {
    if k == 0 {
        1
    } else if k == 1 {
        2
    } else if k == 2 {
        4
    } else if k == 3 {
        8
    } else if k == 4 {
        16
    } else if k == 5 {
        32
    } else if k == 6 {
        64
    } else {
        128
    }
}

/// Bit `k` of a byte.
pub open spec fn bit(x: u8, k: int) -> bool {
    x as int / pow2(k) % 2 == 1
}

pub open spec fn bit_set(x: u8, k: int) -> u8 {
    (if bit(x, k) {
        x as int
    } else {
        x + pow2(k)
    }) as u8
}

pub open spec fn bit_clear(x: u8, k: int) -> u8 {
    (if bit(x, k) {
        x - pow2(k)
    } else {
        x as int
    }) as u8
}

fn power(k: u32) -> (p: u8)
    requires
        k < 8,
    ensures
        p == pow2(k as int),
{
    let t: [u8; 8] = [1, 2, 4, 8, 16, 32, 64, 128];
    t[k as usize]
}

/// Sector of a block's bit, and the byte in it.
pub open spec fn map_sector(g: Geo, b: u32) -> int {
    sector_at(g.bmap_lba, (b / 4096) as int)
}

pub open spec fn map_off(b: u32) -> int {
    (b / 8 % 512) as int
}

/// The block is taken.
pub open spec fn taken(d: DevV, g: Geo, b: u32) -> bool {
    bit(d.at(map_sector(g, b))[map_off(b)], (b % 8) as int)
}

/// The first block from `b` on that is not taken.
pub open spec fn first_free(d: DevV, g: Geo, b: u32) -> Option<u32>
    decreases g.nblocks - b,
{
    if b >= g.nblocks {
        None
    } else if !taken(d, g, b) {
        Some(b)
    } else {
        first_free(d, g, (b + 1) as u32)
    }
}

pub open spec fn marked(d: DevV, g: Geo, b: u32) -> DevV {
    let s = map_sector(g, b);
    let x = d.at(s);
    d.put(s as u32, x.update(map_off(b), bit_set(x[map_off(b)], (b % 8) as int)))
}

pub open spec fn unmarked(d: DevV, g: Geo, b: u32) -> DevV {
    let s = map_sector(g, b);
    let x = d.at(s);
    d.put(s as u32, x.update(map_off(b), bit_clear(x[map_off(b)], (b % 8) as int)))
}

/// The first free block taken and zeroed.
pub open spec fn grabbed(d: DevV, g: Geo) -> (DevV, Option<u32>) {
    match first_free(d, g, 0) {
        Some(b) => (marked(d, g, b).put(b, dev::zeros()), Some(b)),
        None => (d, None),
    }
}

fn zero_sector() -> (r: [u8; SECTOR])
    ensures
        r@ == dev::zeros(),
{
    let r: [u8; SECTOR] = [0; SECTOR];
    assert(r@ =~= dev::zeros());
    r
}

fn balloc(s: &mut Disk) -> (r: Option<u32>)
    requires
        old(s).wf(),
    ensures
        kept(old(s), final(s)),
        (final(s).d(), r) == grabbed(old(s).d(), old(s).geo),
        r matches Some(b) ==> b < old(s).geo.nblocks,
{
    let nb = s.geo.nblocks;
    let mut b: u32 = 0;
    while b < nb
        invariant
            nb == s.geo.nblocks,
            b <= nb,
            kept(old(s), s),
            s.d() == old(s).d(),
            first_free(s.d(), s.geo, 0) == first_free(s.d(), s.geo, b),
        decreases nb - b,
    {
        let lb: u32 = s.geo.bmap_lba.wrapping_add(b / 4096);
        let off: usize = (b / 8 % 512) as usize;
        let mut x = load(s, lb);
        let p = power(b % 8);
        if x[off] / p % 2 == 0 {
            assert(!taken(s.d(), s.geo, b));
            proof {
                lemma_bit_room(x@[off as int], (b % 8) as int);
            }
            let v: u8 = x[off] + p;
            x[off] = v;
            store(s, lb, &x);
            store(s, b, &zero_sector());
            assert(x@ =~= old(s).d().at(lb as int).update(
                off as int,
                bit_set(old(s).d().at(lb as int)[off as int], (b % 8) as int),
            ));
            return Some(b);
        }
        assert(taken(s.d(), s.geo, b));
        b += 1;
    }
    None
}

/// A bit that is clear can be set.
pub proof fn lemma_bit_room(x: u8, k: int)
    requires
        0 <= k < 8,
        x as int / pow2(k) % 2 == 0,
    ensures
        x + pow2(k) <= 255,
{
}

fn bfree(s: &mut Disk, lba: u32)
    requires
        old(s).wf(),
    ensures
        kept(old(s), final(s)),
        final(s).d() == unmarked(old(s).d(), old(s).geo, lba),
{
    let lb: u32 = s.geo.bmap_lba.wrapping_add(lba / 4096);
    let off: usize = (lba / 8 % 512) as usize;
    let mut x = load(s, lb);
    let ghost x0 = x@;
    let p = power(lba % 8);
    if x[off] / p % 2 == 1 {
        let v: u8 = x[off] - p;
        x[off] = v;
    }
    assert(x@ =~= x0.update(off as int, bit_clear(x0[off as int], (lba % 8) as int)));
    store(s, lb, &x);
}

// ---- blocks of a file ----

/// Block `idx` of a file.
pub open spec fn block_of(d: DevV, r: InoV, idx: u32) -> Option<u32> {
    let b = if idx < 8 {
        r.direct[idx as int]
    } else if idx < MAX_BLOCKS && r.indirect != 0 {
        dev::word(d.at(r.indirect as int), (idx - 8) * 4)
    } else {
        0
    };
    if b == 0 {
        None
    } else {
        Some(b)
    }
}

/// Block `idx` of a file, found.
fn find_block(s: &mut Disk, r: &Ino, idx: u32) -> (b: Option<u32>)
    requires
        old(s).wf(),
    ensures
        kept(old(s), final(s)),
        final(s).d() == old(s).d(),
        b == block_of(old(s).d(), r@, idx),
{
    if idx < 8 {
        let b = r.direct[idx as usize];
        if b == 0 {
            return None;
        }
        return Some(b);
    }
    let ii: u32 = idx - 8;
    if ii >= 128 {
        return None;
    }
    if r.indirect == 0 {
        return None;
    }
    let ib = load(s, r.indirect);
    let b = dev::get32(&ib, ii as usize * 4);
    if b == 0 {
        return None;
    }
    Some(b)
}

/// Block `idx` of inode `i`, made if it is missing: device, inode and block
/// after that. None when no block is left, or beyond what a file can have.
pub open spec fn grown(d: DevV, g: Geo, i: u32, r: InoV, idx: u32) -> (DevV, InoV, Option<u32>) {
    if idx < 8 {
        if r.direct[idx as int] != 0 {
            (d, r, Some(r.direct[idx as int]))
        } else {
            let (e, b) = grabbed(d, g);
            match b {
                None => (e, r, None),
                Some(x) => {
                    let q = InoV { direct: r.direct.update(idx as int, x), ..r };
                    (ino_put(e, g, i, q), q, Some(x))
                },
            }
        }
    } else if idx >= MAX_BLOCKS {
        (d, r, None)
    } else {
        let (d1, r1, ok) = listed(d, g, i, r);
        if !ok {
            (d1, r1, None)
        } else {
            let l = d1.at(r1.indirect as int);
            let b = dev::word(l, (idx - 8) * 4);
            if b != 0 {
                (d1, r1, Some(b))
            } else {
                let (e, x) = grabbed(d1, g);
                match x {
                    None => (e, r1, None),
                    Some(y) => (
                        e.put(r1.indirect, dev::with_word(l, (idx - 8) * 4, y)),
                        r1,
                        Some(y),
                    ),
                }
            }
        }
    }
}

/// The block that lists blocks, made if it is missing.
pub open spec fn listed(d: DevV, g: Geo, i: u32, r: InoV) -> (DevV, InoV, bool) {
    if r.indirect != 0 {
        (d, r, true)
    } else {
        let (e, b) = grabbed(d, g);
        match b {
            None => (e, r, false),
            Some(x) => {
                let q = InoV { indirect: x, ..r };
                (ino_put(e.put(x, dev::zeros()), g, i, q), q, true)
            },
        }
    }
}

/// Block `idx` of a file, made if it is missing.
fn data_block(s: &mut Disk, r: &mut Ino, i: u32, idx: u32) -> (b: Option<u32>)
    requires
        old(s).wf(),
        1 <= i <= old(s).geo.ninodes,
    ensures
        kept(old(s), final(s)),
        (final(s).d(), final(r)@, b) == grown(old(s).d(), old(s).geo, i, old(r)@, idx),
{
    if idx < 8 {
        if r.direct[idx as usize] == 0 {
            let b = match balloc(s) {
                Some(b) => b,
                None => {
                    return None;
                },
            };
            r.direct[idx as usize] = b;
            assert(r@.direct =~= old(r)@.direct.update(idx as int, b));
            put_ino(s, i, r);
            return Some(b);
        }
        return Some(r.direct[idx as usize]);
    }
    let ii: u32 = idx - 8;
    if ii >= 128 {
        return None;
    }
    if r.indirect == 0 {
        let b = match balloc(s) {
            Some(b) => b,
            None => {
                return None;
            },
        };
        r.indirect = b;
        store(s, b, &zero_sector());
        put_ino(s, i, r);
    }
    let mut ib = load(s, r.indirect);
    let b = dev::get32(&ib, ii as usize * 4);
    if b != 0 {
        return Some(b);
    }
    let x = match balloc(s) {
        Some(x) => x,
        None => {
            return None;
        },
    };
    dev::put32(&mut ib, ii as usize * 4, x);
    store(s, r.indirect, &ib);
    Some(x)
}

// ---- directories ----

/// The entry at an offset: its name ends at a zero or fills its space.
pub open spec fn name_end(b: Seq<u8>, o: int, k: int) -> int
    decreases NAME_LEN - k,
{
    if k >= NAME_LEN || b[o + k] == 0 {
        k
    } else {
        name_end(b, o, k + 1)
    }
}

pub open spec fn name_at(b: Seq<u8>, o: int) -> Seq<u8> {
    b.subrange(o, o + name_end(b, o, 0))
}

/// Block and offset of entry `i`.
pub open spec fn dent_block(i: int) -> u32 {
    (i / 16) as u32
}

pub open spec fn dent_off(i: int) -> int {
    i % 16 * DENT
}

/// Entries of a directory.
pub open spec fn dent_count(r: InoV) -> int {
    r.size as int / DENT as int
}

/// Sector that holds entry `i`, if the directory has it.
pub open spec fn dent_sector(d: DevV, r: InoV, i: int) -> Option<u32> {
    block_of(d, r, dent_block(i))
}

/// Entry `i`: name and inode. None for an empty entry.
pub open spec fn dent_at(d: DevV, r: InoV, i: int) -> Option<(Seq<u8>, u32)> {
    match dent_sector(d, r, i) {
        Some(b) => {
            let x = d.at(b as int);
            let o = dent_off(i);
            if x[o] == 0 {
                None
            } else {
                Some((name_at(x, o), dev::word(x, o + NAME_LEN)))
            }
        },
        None => None,
    }
}

/// The first entry from `i` on with this name. The search ends where a block
/// of the directory is missing.
pub open spec fn find_dent(d: DevV, r: InoV, name: Seq<u8>, i: int) -> Option<int>
    decreases dent_count(r) - i,
{
    if i >= dent_count(r) || dent_sector(d, r, i) is None {
        None
    } else if dent_at(d, r, i) matches Some(e) && e.0 == name {
        Some(i)
    } else {
        find_dent(d, r, name, i + 1)
    }
}

/// Inode of a name in a directory.
pub open spec fn child(d: DevV, g: Geo, parent: u32, name: Seq<u8>) -> Option<u32> {
    if name.len() > NAME_LEN {
        None
    } else {
        match ino_at(d, g, parent) {
            Some(r) if r.kind == KIND_DIR => match find_dent(d, r, name, 0) {
                Some(i) => Some((dent_at(d, r, i)->0).1),
                None => None,
            },
            _ => None,
        }
    }
}

fn bytes_equal(a: &[u8; SECTOR], o: usize, n: usize, name: &[u8]) -> (r: bool)
    requires
        o + n <= SECTOR,
    ensures
        r == (a@.subrange(o as int, o + n) == name@),
{
    if n != name.len() {
        assert(a@.subrange(o as int, o + n).len() == n);
        return false;
    }
    let mut k: usize = 0;
    while k < n
        invariant
            o + n <= SECTOR,
            n == name@.len(),
            k <= n,
            forall|x: int| 0 <= x < k ==> a@[o + x] == #[trigger] name@[x],
        decreases n - k,
    {
        if a[o + k] != name[k] {
            assert(a@.subrange(o as int, o + n)[k as int] != name@[k as int]);
            return false;
        }
        k += 1;
    }
    assert(a@.subrange(o as int, o + n) =~= name@);
    true
}

fn name_len(b: &[u8; SECTOR], o: usize) -> (n: usize)
    requires
        o + DENT <= SECTOR,
    ensures
        n == name_end(b@, o as int, 0),
        n <= NAME_LEN,
{
    let mut k: usize = 0;
    while k < NAME_LEN && b[o + k] != 0
        invariant
            o + DENT <= SECTOR,
            k <= NAME_LEN,
            name_end(b@, o as int, 0) == name_end(b@, o as int, k as int),
        decreases NAME_LEN - k,
    {
        k += 1;
    }
    k
}

proof fn lemma_name_end(b: Seq<u8>, o: int, k: int)
    requires
        0 <= k <= NAME_LEN,
    ensures
        k <= name_end(b, o, k) <= NAME_LEN,
    decreases NAME_LEN - k,
{
    if k < NAME_LEN && b[o + k] != 0 {
        lemma_name_end(b, o, k + 1);
    }
}

/// The entry of a name: its number and sector.
fn search(s: &mut Disk, r: &Ino, name: &[u8]) -> (e: Option<(usize, u32, [u8; SECTOR])>)
    requires
        old(s).wf(),
    ensures
        kept(old(s), final(s)),
        final(s).d() == old(s).d(),
        match e {
            Some((i, b, x)) => {
                &&& find_dent(old(s).d(), r@, name@, 0) == Some(i as int)
                &&& i < dent_count(r@)
                &&& dent_sector(old(s).d(), r@, i as int) == Some(b)
                &&& x@ == old(s).d().at(b as int)
                &&& x@[dent_off(i as int)] != 0
            },
            None => find_dent(old(s).d(), r@, name@, 0) is None,
        },
{
    let n: usize = r.size as usize / DENT;
    let mut i: usize = 0;
    while i < n
        invariant
            n == dent_count(r@),
            n <= 0x800_0000,
            i <= n,
            kept(old(s), s),
            s.d() == old(s).d(),
            find_dent(s.d(), r@, name@, 0) == find_dent(s.d(), r@, name@, i as int),
        decreases n - i,
    {
        let b = match find_block(s, r, (i / 16) as u32) {
            Some(b) => b,
            None => {
                return None;
            },
        };
        let x = load(s, b);
        let o: usize = i % 16 * DENT;
        if x[o] != 0 {
            let k = name_len(&x, o);
            if bytes_equal(&x, o, k, name) {
                return Some((i, b, x));
            }
        }
        i += 1;
    }
    None
}

/// Looks a name up in a directory.
pub fn lookup(s: &mut Disk, parent: u32, name: &[u8]) -> (r: Option<u32>)
    requires
        old(s).wf(),
    ensures
        kept(old(s), final(s)),
        final(s).d() == old(s).d(),
        r == child(old(s).d(), old(s).geo, parent, name@),
{
    if name.len() > NAME_LEN {
        return None;
    }
    let rec = match get_ino(s, parent) {
        Some(x) => x,
        None => {
            return None;
        },
    };
    if rec.kind != KIND_DIR {
        return None;
    }
    match search(s, &rec, name) {
        Some((i, b, x)) => Some(dev::get32(&x, i % 16 * DENT + NAME_LEN)),
        None => None,
    }
}

// ---- paths ----

/// Index of the first `/` at or after `i`; the length if there is none.
pub open spec fn slash(p: Seq<u8>, i: int) -> int
    decreases p.len() - i,
{
    if i >= p.len() || p[i] == 0x2f {
        i
    } else {
        slash(p, i + 1)
    }
}

proof fn lemma_slash(p: Seq<u8>, i: int)
    requires
        0 <= i <= p.len(),
    ensures
        i <= slash(p, i) <= p.len(),
    decreases p.len() - i,
{
    if i < p.len() && p[i] != 0x2f {
        lemma_slash(p, i + 1);
    }
}

/// The inode that the rest of a path from `i` on leads to from inode `cur`.
/// Empty components are passed over.
pub open spec fn walk_from(d: DevV, g: Geo, cur: u32, p: Seq<u8>, i: int) -> Option<u32>
    decreases p.len() - i,
    when 0 <= i
{
    if i >= p.len() {
        Some(cur)
    } else {
        let e = slash(p, i);
        if e < i || e > p.len() {
            None
        } else if e == i {
            walk_from(d, g, cur, p, i + 1)
        } else {
            match child(d, g, cur, p.subrange(i, e)) {
                Some(c) => if ino_at(d, g, c) is None {
                    None
                } else {
                    walk_from(d, g, c, p, e)
                },
                None => None,
            }
        }
    }
}

/// The inode of an absolute path.
pub open spec fn walked(d: DevV, g: Geo, p: Seq<u8>) -> Option<u32> {
    if p.len() > 0 && p[0] == 0x2f {
        walk_from(d, g, g.root, p, 0)
    } else {
        None
    }
}

/// Inode of an absolute path.
pub fn walk(s: &mut Disk, path: &[u8]) -> (r: Option<u32>)
    requires
        old(s).wf(),
    ensures
        kept(old(s), final(s)),
        final(s).d() == old(s).d(),
        r == walked(old(s).d(), old(s).geo, path@),
{
    let n: usize = path.len();
    if n == 0 || path[0] != 0x2f {
        return None;
    }
    let mut cur: u32 = s.geo.root;
    let mut i: usize = 0;
    while i < n
        invariant
            n == path@.len(),
            i <= n,
            kept(old(s), s),
            s.d() == old(s).d(),
            walk_from(s.d(), s.geo, s.geo.root, path@, 0) == walk_from(
                s.d(),
                s.geo,
                cur,
                path@,
                i as int,
            ),
        decreases n - i,
    {
        let mut e: usize = i;
        while e < n && path[e] != 0x2f
            invariant
                n == path@.len(),
                i <= e <= n,
                slash(path@, i as int) == slash(path@, e as int),
            decreases n - e,
        {
            e += 1;
        }
        assert(slash(path@, i as int) == e);
        if e == i {
            i += 1;
        } else {
            let comp = vstd::slice::slice_subrange(path, i, e);
            match lookup(s, cur, comp) {
                Some(c) => {
                    if get_ino(s, c).is_none() {
                        return None;
                    }
                    cur = c;
                    i = e;
                },
                None => {
                    return None;
                },
            }
        }
    }
    Some(cur)
}

/// Length of a path without its trailing slashes.
pub open spec fn trimmed(p: Seq<u8>, n: int) -> int
    decreases n,
{
    if n > 0 && p[n - 1] == 0x2f {
        trimmed(p, n - 1)
    } else {
        n
    }
}

/// Index of the last slash below `n`; -1 if there is none.
pub open spec fn last_slash(p: Seq<u8>, n: int) -> int
    decreases n,
{
    if n <= 0 {
        -1
    } else if p[n - 1] == 0x2f {
        n - 1
    } else {
        last_slash(p, n - 1)
    }
}

/// Directory and name that a path ends in.
pub open spec fn parent_name(d: DevV, g: Geo, p: Seq<u8>) -> Option<(u32, Seq<u8>)> {
    let n = trimmed(p, p.len() as int);
    let k = last_slash(p, n);
    let name = p.subrange(k + 1, n);
    if k < 0 || name.len() == 0 || name.len() > NAME_LEN {
        None
    } else if k == 0 {
        Some((g.root, name))
    } else {
        match walked(d, g, p.take(k)) {
            Some(i) => Some((i, name)),
            None => None,
        }
    }
}

fn split_parent<'a>(s: &mut Disk, path: &'a [u8]) -> (r: Option<(u32, &'a [u8])>)
    requires
        old(s).wf(),
    ensures
        kept(old(s), final(s)),
        final(s).d() == old(s).d(),
        match r {
            Some((i, name)) => parent_name(old(s).d(), old(s).geo, path@) == Some((i, name@)) && 0
                < name@.len() <= NAME_LEN,
            None => parent_name(old(s).d(), old(s).geo, path@) is None,
        },
{
    let mut n: usize = path.len();
    while n > 0 && path[n - 1] == 0x2f
        invariant
            n <= path@.len(),
            trimmed(path@, path@.len() as int) == trimmed(path@, n as int),
        decreases n,
    {
        n -= 1;
    }
    let mut k: usize = n;
    while k > 0 && path[k - 1] != 0x2f
        invariant
            k <= n <= path@.len(),
            last_slash(path@, n as int) == last_slash(path@, k as int),
        decreases k,
    {
        k -= 1;
    }
    if k == 0 {
        return None;
    }
    let name = vstd::slice::slice_subrange(path, k, n);
    let len: usize = name.len();
    if len == 0 || len > NAME_LEN {
        return None;
    }
    if k == 1 {
        return Some((s.geo.root, name));
    }
    let pp = vstd::slice::slice_subrange(path, 0, k - 1);
    assert(pp@ =~= path@.take(k - 1));
    match walk(s, pp) {
        Some(i) => Some((i, name)),
        None => None,
    }
}

// ---- mounting ----

pub const MAGIC0: u32 = 0x4553_554d;

pub const MAGIC1: u32 = 0x3130_5346;

/// What sector 0 says.
pub open spec fn geo_of(b: Seq<u8>) -> Geo {
    Geo {
        nblocks: dev::word(b, 12),
        bmap_lba: dev::word(b, 16),
        ino_lba: dev::word(b, 24),
        ninodes: dev::word(b, 32),
        root: if dev::word(b, 40) == 0 {
            1
        } else {
            dev::word(b, 40)
        },
    }
}

/// Sector 0 has the name of the file system and the size of its blocks.
pub open spec fn described(d: DevV) -> bool {
    let b = d.at(0);
    &&& dev::word(b, 0) == MAGIC0
    &&& dev::word(b, 4) == MAGIC1
    &&& dev::word(b, 8) == SECTOR
}

/// Sector 0 describes a file system that can be mounted.
pub open spec fn mountable(d: DevV) -> bool {
    described(d) && ino_at(d, geo_of(d.at(0)), geo_of(d.at(0)).root) is Some
}

pub fn is_mounted(s: &Disk) -> (r: bool)
    ensures
        r == s.mounted,
{
    s.mounted
}

/// Mounts the disk: its name, its block size and the root inode must be right.
/// What sector 0 says of the places holds from then on even if only the root
/// inode is missing.
pub fn mount(s: &mut Disk) -> (ok: bool)
    requires
        old(s).wf(),
    ensures
        final(s).wf(),
        final(s).d() == old(s).d(),
        blk::accessed(old(s).blk, final(s).blk),
        ok == mountable(old(s).d()),
        final(s).mounted == (ok || old(s).mounted),
        final(s).geo == if described(old(s).d()) {
            geo_of(old(s).d().at(0))
        } else {
            old(s).geo
        },
{
    let b = load(s, 0);
    if dev::get32(&b, 0) != MAGIC0 || dev::get32(&b, 4) != MAGIC1 || dev::get32(&b, 8) != SECTOR as u32 {
        return false;
    }
    let root = dev::get32(&b, 40);
    let g = Geo {
        nblocks: dev::get32(&b, 12),
        bmap_lba: dev::get32(&b, 16),
        ino_lba: dev::get32(&b, 24),
        ninodes: dev::get32(&b, 32),
        root: if root == 0 {
            1
        } else {
            root
        },
    };
    s.geo = g;
    if get_ino(s, g.root).is_none() {
        return false;
    }
    s.mounted = true;
    true
}

/// Where the description of the disk holds its mark.
pub const MARK_OFF: usize = 48;

/// The disk is marked as in use.
pub open spec fn is_dirty(d: DevV) -> bool {
    dev::word(d.at(0), MARK_OFF as int) != 0
}

/// The disk with its mark set or cleared.
pub open spec fn dirty_set(d: DevV, dirty: bool) -> DevV {
    d.put(
        0,
        dev::with_word(
            d.at(0),
            MARK_OFF as int,
            if dirty {
                1
            } else {
                0
            },
        ),
    )
}

/// Marks the disk as in use, or as left in order.
pub fn set_dirty(s: &mut Disk, dirty: bool)
    requires
        old(s).wf(),
    ensures
        kept(old(s), final(s)),
        final(s).d() == dirty_set(old(s).d(), dirty),
{
    let mut b = load(s, 0);
    let v: u32 = if dirty {
        1
    } else {
        0
    };
    dev::put32(&mut b, MARK_OFF, v);
    store(s, 0, &b);
}

/// The mark is what it was set to, the rest of the description is as it was,
/// and so is every other sector.
pub proof fn law_mark(d: DevV, dirty: bool)
    requires
        d.wf(),
        d.has(0),
    ensures
        is_dirty(dirty_set(d, dirty)) == dirty,
        geo_of(dirty_set(d, dirty).at(0)) == geo_of(d.at(0)),
        forall|x: int| x != 0 ==> #[trigger] dirty_set(d, dirty).at(x) == d.at(x),
        forall|k: int|
            0 <= k < 512 && !(MARK_OFF <= k < MARK_OFF + 4) ==> #[trigger] dirty_set(d, dirty).at(0)[k] == d.at(
                0,
            )[k],
{
    let v: u32 = if dirty {
        1
    } else {
        0
    };
    let b = d.at(0);
    assert(dirty_set(d, dirty).at(0) == dev::with_word(b, MARK_OFF as int, v));
    dev::law_word_stored(b, MARK_OFF as int, v, 12);
    dev::law_word_stored(b, MARK_OFF as int, v, 16);
    dev::law_word_stored(b, MARK_OFF as int, v, 24);
    dev::law_word_stored(b, MARK_OFF as int, v, 32);
    dev::law_word_stored(b, MARK_OFF as int, v, 40);
}

// ---- reading ----

/// The file at a path.
pub open spec fn file_at(d: DevV, g: Geo, p: Seq<u8>) -> Option<(u32, InoV)> {
    match walked(d, g, p) {
        Some(i) => match ino_at(d, g, i) {
            Some(r) if r.kind == KIND_FILE => Some((i, r)),
            _ => None,
        },
        None => None,
    }
}

/// Byte `pos` of a file.
pub open spec fn byte_of(d: DevV, r: InoV, pos: int) -> u8 {
    d.at((block_of(d, r, (pos / 512) as u32)->0) as int)[pos % 512]
}

/// The file has the block of byte `pos`.
pub open spec fn has_byte(d: DevV, r: InoV, pos: int) -> bool {
    block_of(d, r, (pos / 512) as u32) is Some
}

/// Bytes that can be read from `off` on, `n` at most: up to the end of the
/// file, or to the first block that is missing.
pub open spec fn readable(d: DevV, r: InoV, off: int, n: int) -> int
    decreases n,
{
    if n <= 0 || off >= r.size || !has_byte(d, r, off) {
        0
    } else {
        1 + readable(d, r, off + 1, n - 1)
    }
}

proof fn lemma_readable_step(d: DevV, r: InoV, off: int, n: int, k: int)
    requires
        0 <= off,
        0 <= k <= n,
        off + k <= r.size,
        k == 0 || off / 512 == (off + k - 1) / 512,
        k == 0 || has_byte(d, r, off),
    ensures
        readable(d, r, off, n) == k + readable(d, r, off + k, n - k),
    decreases k,
{
    if k > 0 {
        assert((off + 1) / 512 == off / 512 || k == 1);
        lemma_readable_step(d, r, off + 1, n - 1, k - 1);
    }
}

fn open_file(s: &mut Disk, path: &[u8]) -> (r: Option<(u32, Ino)>)
    requires
        old(s).wf(),
    ensures
        kept(old(s), final(s)),
        final(s).d() == old(s).d(),
        match r {
            Some((i, x)) => file_at(old(s).d(), old(s).geo, path@) == Some((i, x@)) && 1 <= i
                <= old(s).geo.ninodes,
            None => file_at(old(s).d(), old(s).geo, path@) is None,
        },
{
    match walk(s, path) {
        Some(i) => match get_ino(s, i) {
            Some(r) => if r.kind == KIND_FILE {
                Some((i, r))
            } else {
                None
            },
            None => None,
        },
        None => None,
    }
}

/// Reads from a file at an offset into `buf`; returns how many bytes.
pub fn read_at(s: &mut Disk, path: &[u8], off: usize, buf: &mut [u8]) -> (n: usize)
    requires
        old(s).wf(),
    ensures
        kept(old(s), final(s)),
        final(s).d() == old(s).d(),
        final(buf)@.len() == old(buf)@.len(),
        match file_at(old(s).d(), old(s).geo, path@) {
            Some((i, r)) => {
                &&& n == readable(old(s).d(), r, off as int, old(buf)@.len() as int)
                &&& forall|k: int|
                    0 <= k < n ==> #[trigger] final(buf)@[k] == byte_of(old(s).d(), r, off + k)
                &&& forall|k: int| n <= k < old(buf)@.len() ==> #[trigger] final(buf)@[k] == old(buf)@[k]
            },
            None => n == 0 && final(buf)@ == old(buf)@,
        },
{
    let (i, rec) = match open_file(s, path) {
        Some(x) => x,
        None => {
            return 0;
        },
    };
    let len: usize = buf.len();
    let size: usize = rec.size as usize;
    let mut n: usize = 0;
    let ghost d0 = s.d();
    let ghost b0 = buf@;
    while n < len && off < size && n < size - off
        invariant
            kept(old(s), s),
            s.d() == d0,
            d0 == old(s).d(),
            b0 == old(buf)@,
            file_at(d0, old(s).geo, path@) == Some((i, rec@)),
            len == b0.len(),
            buf@.len() == len,
            size == rec@.size,
            n <= len,
            n == 0 || off + n <= size,
            readable(d0, rec@, off as int, len as int) == n + readable(d0, rec@, off + n, len - n),
            forall|k: int| 0 <= k < n ==> #[trigger] buf@[k] == byte_of(d0, rec@, off + k),
            forall|k: int| n <= k < len ==> #[trigger] buf@[k] == b0[k],
        decreases len - n,
    {
        let pos: usize = off + n;
        let b = match find_block(s, &rec, (pos / 512) as u32) {
            Some(b) => b,
            None => {
                assert(!has_byte(d0, rec@, pos as int));
                return n;
            },
        };
        let x = load(s, b);
        let bo: usize = pos % 512;
        let mut chunk: usize = if len - n < SECTOR - bo {
            len - n
        } else {
            SECTOR - bo
        };
        if size - pos < chunk {
            chunk = size - pos;
        }
        let ghost n0 = n;
        let mut k: usize = 0;
        while k < chunk
            invariant
                len == b0.len(),
                buf@.len() == len,
                n0 == n,
                n + chunk <= len,
                bo + chunk <= SECTOR,
                bo == pos % 512,
                pos == off + n,
                pos + chunk <= size,
                k <= chunk,
                x@ == d0.at(b as int),
                block_of(d0, rec@, (pos / 512) as u32) == Some(b),
                forall|j: int| 0 <= j < n + k ==> #[trigger] buf@[j] == byte_of(d0, rec@, off + j),
                forall|j: int| n + k <= j < len ==> #[trigger] buf@[j] == b0[j],
            decreases chunk - k,
        {
            buf[n + k] = x[bo + k];
            assert((pos + k) as int / 512 == pos as int / 512 && (pos + k) as int % 512 == bo + k);
            k += 1;
        }
        proof {
            lemma_readable_step(d0, rec@, pos as int, len - n, chunk as int);
        }
        n += chunk;
    }
    n
}

/// A file can be read to its end.
pub open spec fn complete(d: DevV, r: InoV) -> bool {
    forall|pos: int| 0 <= pos < r.size ==> #[trigger] has_byte(d, r, pos)
}

pub open spec fn content(d: DevV, r: InoV) -> Seq<u8> {
    Seq::new(r.size as nat, |k: int| byte_of(d, r, k))
}

/// The bytes of a file. None when there is no such file, or a block of it is
/// missing.
pub fn read_file(s: &mut Disk, path: &[u8]) -> (r: Option<Vec<u8>>)
    requires
        old(s).wf(),
    ensures
        kept(old(s), final(s)),
        final(s).d() == old(s).d(),
        match file_at(old(s).d(), old(s).geo, path@) {
            Some((i, x)) => {
                &&& r is Some <==> complete(old(s).d(), x)
                &&& r matches Some(v) ==> v@ == content(old(s).d(), x)
            },
            None => r is None,
        },
{
    let (i, rec) = match open_file(s, path) {
        Some(x) => x,
        None => {
            return None;
        },
    };
    let ghost d0 = s.d();
    let mut out: Vec<u8> = Vec::new();
    let mut got: u32 = 0;
    let mut idx: u32 = 0;
    while got < rec.size
        invariant
            kept(old(s), s),
            s.d() == d0,
            d0 == old(s).d(),
            file_at(d0, old(s).geo, path@) == Some((i, rec@)),
            got <= rec@.size,
            got == rec@.size || got == idx * 512,
            idx <= got / 512 + 1,
            out@.len() == got,
            forall|k: int| 0 <= k < got ==> #[trigger] out@[k] == byte_of(d0, rec@, k),
            forall|pos: int| 0 <= pos < got ==> #[trigger] has_byte(d0, rec@, pos),
        decreases rec@.size - got,
    {
        let b = match find_block(s, &rec, idx) {
            Some(b) => b,
            None => {
                assert(!has_byte(d0, rec@, got as int));
                return None;
            },
        };
        let x = load(s, b);
        let n: u32 = if rec.size - got < 512 {
            rec.size - got
        } else {
            512
        };
        let mut k: u32 = 0;
        while k < n
            invariant
                n <= 512,
                k <= n,
                got + n <= rec@.size,
                got == idx * 512,
                x@ == d0.at(b as int),
                block_of(d0, rec@, idx) == Some(b),
                out@.len() == got + k,
                forall|j: int| 0 <= j < got + k ==> #[trigger] out@[j] == byte_of(d0, rec@, j),
            decreases n - k,
        {
            out.push(x[k as usize]);
            assert((got + k) as int / 512 == idx && (got + k) as int % 512 == k);
            k += 1;
        }
        assert forall|pos: int| 0 <= pos < got + n implies #[trigger] has_byte(d0, rec@, pos) by {
            if pos >= got {
                assert(pos / 512 == idx);
            }
        }
        got = got + n;
        idx = idx + 1;
    }
    assert(out@ =~= content(d0, rec@));
    Some(out)
}

/// Size of a file.
pub fn file_len(s: &mut Disk, path: &[u8]) -> (r: Option<usize>)
    requires
        old(s).wf(),
    ensures
        kept(old(s), final(s)),
        final(s).d() == old(s).d(),
        r == match file_at(old(s).d(), old(s).geo, path@) {
            Some((i, x)) => Some(x.size as usize),
            None => None,
        },
{
    match open_file(s, path) {
        Some((i, x)) => Some(x.size as usize),
        None => None,
    }
}

fn is_root(path: &[u8]) -> (r: bool)
    ensures
        r == (path@ == seq![0x2fu8]),
{
    let r = path.len() == 1 && path[0] == 0x2f;
    proof {
        if r {
            assert(path@ =~= seq![0x2fu8]);
        }
    }
    r
}

/// Whether there is anything at a path.
pub fn exists_path(s: &mut Disk, path: &[u8]) -> (r: bool)
    requires
        old(s).wf(),
    ensures
        kept(old(s), final(s)),
        final(s).d() == old(s).d(),
        r == (path@ == seq![0x2fu8] || walked(old(s).d(), old(s).geo, path@) is Some),
{
    if is_root(path) {
        return true;
    }
    walk(s, path).is_some()
}

/// Kind and size of what is at a path: 1 a file, 2 a directory, 0 nothing.
pub fn stat(s: &mut Disk, path: &[u8]) -> (r: (u8, u32))
    requires
        old(s).wf(),
    ensures
        kept(old(s), final(s)),
        final(s).d() == old(s).d(),
        r == if path@ == seq![0x2fu8] {
            (2u8, 0u32)
        } else {
            match walked(old(s).d(), old(s).geo, path@) {
                Some(i) => match ino_at(old(s).d(), old(s).geo, i) {
                    Some(x) => (x.kind, x.size),
                    None => (0, 0),
                },
                None => (0, 0),
            }
        },
{
    if is_root(path) {
        return (2, 0);
    }
    match walk(s, path) {
        Some(i) => match get_ino(s, i) {
            Some(x) => (x.kind, x.size),
            None => (0, 0),
        },
        None => (0, 0),
    }
}

/// Names listed for the entries from `i` on, directories with a slash. The list
/// ends where a block of the directory is missing.
pub open spec fn listing(d: DevV, g: Geo, r: InoV, i: int) -> Seq<Seq<u8>>
    decreases dent_count(r) - i,
{
    if i >= dent_count(r) || dent_sector(d, r, i) is None {
        Seq::empty()
    } else {
        let rest = listing(d, g, r, i + 1);
        match dent_at(d, r, i) {
            Some((name, c)) => {
                let item = if ino_at(d, g, c) matches Some(x) && x.kind == KIND_DIR {
                    text::shown(name).push(0x2f)
                } else {
                    text::shown(name)
                };
                seq![item] + rest
            },
            None => rest,
        }
    }
}

pub open spec fn names_view(v: Seq<Vec<u8>>) -> Seq<Seq<u8>> {
    Seq::new(v.len(), |i: int| v[i]@)
}

/// Names in a directory; none for anything else.
pub fn list_dir(s: &mut Disk, path: &[u8]) -> (out: Vec<Vec<u8>>)
    requires
        old(s).wf(),
    ensures
        kept(old(s), final(s)),
        final(s).d() == old(s).d(),
        names_view(out@) == match walked(old(s).d(), old(s).geo, path@) {
            Some(i) => match ino_at(old(s).d(), old(s).geo, i) {
                Some(r) if r.kind == KIND_DIR => listing(old(s).d(), old(s).geo, r, 0),
                _ => Seq::empty(),
            },
            None => Seq::empty(),
        },
{
    let mut out: Vec<Vec<u8>> = Vec::new();
    assert(names_view(out@) =~= Seq::empty());
    let ino = match walk(s, path) {
        Some(i) => i,
        None => {
            return out;
        },
    };
    let rec = match get_ino(s, ino) {
        Some(r) => r,
        None => {
            return out;
        },
    };
    if rec.kind != KIND_DIR {
        return out;
    }
    let n: usize = rec.size as usize / DENT;
    let ghost d0 = s.d();
    let ghost g = s.geo;
    let ghost all = listing(d0, g, rec@, 0);
    let mut i: usize = 0;
    assert(names_view(out@) + listing(d0, g, rec@, 0) =~= all);
    while i < n
        invariant
            n == dent_count(rec@),
            n <= 0x800_0000,
            i <= n,
            kept(old(s), s),
            s.d() == d0,
            d0 == old(s).d(),
            g == s.geo,
            walked(d0, g, path@) == Some(ino),
            ino_at(d0, g, ino) == Some(rec@),
            rec.kind == KIND_DIR,
            all == listing(d0, g, rec@, 0),
            all == names_view(out@) + listing(d0, g, rec@, i as int),
        decreases n - i,
    {
        let ghost ov = names_view(out@);
        let b = match find_block(s, &rec, (i / 16) as u32) {
            Some(b) => b,
            None => {
                assert(all =~= ov);
                return out;
            },
        };
        let x = load(s, b);
        let o: usize = i % 16 * DENT;
        if x[o] != 0 {
            let k = name_len(&x, o);
            let mut name = text::show(vstd::slice::slice_subrange(x.as_slice(), o, o + k));
            let c = dev::get32(&x, o + NAME_LEN);
            if let Some(y) = get_ino(s, c) {
                if y.kind == KIND_DIR {
                    name.push(0x2f);
                }
            }
            let ghost nv = name@;
            out.push(name);
            proof {
                assert(names_view(out@) =~= ov.push(nv));
                assert(all =~= names_view(out@) + listing(d0, g, rec@, i + 1));
            }
        }
        i += 1;
    }
    assert(all =~= names_view(out@));
    out
}

// ---- writing ----

/// Bytes with `v` put over them from `o` on.
pub open spec fn over(b: Seq<u8>, o: int, v: Seq<u8>) -> Seq<u8> {
    Seq::new(
        b.len(),
        |x: int|
            if o <= x < o + v.len() {
                v[x - o]
            } else {
                b[x]
            },
    )
}

/// Bytes of `buf` from `n` on that go into one block, with the first of them at
/// byte `pos` of the file.
pub open spec fn part(buf: Seq<u8>, n: int, pos: int) -> Seq<u8> {
    let room = 512 - pos % 512;
    if buf.len() - n < room {
        buf.subrange(n, buf.len() as int)
    } else {
        buf.subrange(n, n + room)
    }
}

/// Device, inode and bytes written after the bytes of `buf` from `n` on are
/// written behind `off`, block by block, until no block can be had.
pub open spec fn put_bytes(d: DevV, g: Geo, i: u32, r: InoV, off: int, buf: Seq<u8>, n: int) -> (
    DevV,
    InoV,
    int,
)
    decreases buf.len() - n,
    when 0 <= off && 0 <= n
{
    if n >= buf.len() {
        (d, r, n)
    } else {
        let pos = off + n;
        let (e, q, b) = grown(d, g, i, r, (pos / 512) as u32);
        match b {
            None => (e, q, n),
            Some(x) => {
                let p = part(buf, n, pos);
                let f = e.put(x, over(e.at(x as int), pos % 512, p));
                put_bytes(f, g, i, q, off, buf, n + p.len())
            },
        }
    }
}

/// Device and count after a write to inode `i`: the size grows if need be.
pub open spec fn file_put(d: DevV, g: Geo, i: u32, r: InoV, off: int, buf: Seq<u8>) -> (DevV, int) {
    let (e, q, n) = put_bytes(d, g, i, r, off, buf, 0);
    if (off + n) as u32 > q.size {
        (ino_put(e, g, i, InoV { size: (off + n) as u32, ..q }), n)
    } else {
        (e, n)
    }
}

/// Writes to a file at an offset; returns how many bytes. 0 where there is no
/// such file.
pub fn write_at(s: &mut Disk, path: &[u8], off: usize, buf: &[u8]) -> (n: usize)
    requires
        old(s).wf(),
        off + buf@.len() <= usize::MAX,
    ensures
        kept(old(s), final(s)),
        match file_at(old(s).d(), old(s).geo, path@) {
            Some((i, r)) => (final(s).d(), n as int) == file_put(
                old(s).d(),
                old(s).geo,
                i,
                r,
                off as int,
                buf@,
            ),
            None => n == 0 && final(s).d() == old(s).d(),
        },
{
    let (i, mut rec) = match open_file(s, path) {
        Some(x) => x,
        None => {
            return 0;
        },
    };
    let len: usize = buf.len();
    let mut n: usize = 0;
    let ghost g = s.geo;
    let ghost all = put_bytes(s.d(), g, i, rec@, off as int, buf@, 0);
    let mut full = false;
    while n < len && !full
        invariant
            kept(old(s), s),
            g == s.geo,
            1 <= i <= g.ninodes,
            len == buf@.len(),
            n <= len,
            off + len <= usize::MAX,
            full ==> all == (s.d(), rec@, n as int),
            !full ==> all == put_bytes(s.d(), g, i, rec@, off as int, buf@, n as int),
        decreases len - n, (if full {
            0int
        } else {
            1
        }),
    {
        let pos: usize = off + n;
        match data_block(s, &mut rec, i, (pos / 512) as u32) {
            Some(b) => {
                let mut x = load(s, b);
                let ghost x0 = x@;
                let bo: usize = pos % 512;
                let chunk: usize = if len - n < SECTOR - bo {
                    len - n
                } else {
                    SECTOR - bo
                };
                let ghost p = part(buf@, n as int, pos as int);
                assert(p.len() == chunk);
                let mut k: usize = 0;
                while k < chunk
                    invariant
                        k <= chunk,
                        bo + chunk <= SECTOR,
                        n + chunk <= len,
                        len == buf@.len(),
                        p == buf@.subrange(n as int, n + chunk),
                        x0.len() == SECTOR,
                        x@.len() == SECTOR,
                        forall|j: int|
                            0 <= j < SECTOR ==> #[trigger] x@[j] == if bo <= j < bo + k {
                                p[j - bo]
                            } else {
                                x0[j]
                            },
                    decreases chunk - k,
                {
                    x[bo + k] = buf[n + k];
                    k += 1;
                }
                assert(x@ =~= over(x0, bo as int, p));
                store(s, b, &x);
                n += chunk;
            },
            None => {
                full = true;
            },
        }
    }
    let end: u32 = (off + n) as u32;
    if end > rec.size {
        rec.size = end;
        put_ino(s, i, &rec);
    }
    n
}

// ---- giving blocks back ----

pub open spec fn free_direct(d: DevV, g: Geo, r: InoV, k: int) -> DevV
    decreases k,
{
    if k <= 0 {
        d
    } else {
        let e = free_direct(d, g, r, k - 1);
        if r.direct[k - 1] != 0 {
            unmarked(e, g, r.direct[k - 1])
        } else {
            e
        }
    }
}

/// The first `k` blocks that a list names given back.
pub open spec fn free_listed(d: DevV, g: Geo, l: Seq<u8>, k: int) -> DevV
    decreases k,
{
    if k <= 0 {
        d
    } else {
        let e = free_listed(d, g, l, k - 1);
        let b = dev::word(l, (k - 1) * 4);
        if b != 0 {
            unmarked(e, g, b)
        } else {
            e
        }
    }
}

/// All blocks of an inode given back.
pub open spec fn freed(d: DevV, g: Geo, r: InoV) -> DevV {
    let e = free_direct(d, g, r, 8);
    if r.indirect != 0 {
        unmarked(free_listed(e, g, e.at(r.indirect as int), 128), g, r.indirect)
    } else {
        e
    }
}

fn free_ino_blocks(s: &mut Disk, r: &Ino)
    requires
        old(s).wf(),
    ensures
        kept(old(s), final(s)),
        final(s).d() == freed(old(s).d(), old(s).geo, r@),
{
    let ghost d0 = s.d();
    let mut k: usize = 0;
    while k < 8
        invariant
            k <= 8,
            kept(old(s), s),
            s.d() == free_direct(d0, s.geo, r@, k as int),
        decreases 8 - k,
    {
        if r.direct[k] != 0 {
            bfree(s, r.direct[k]);
        }
        k += 1;
    }
    if r.indirect != 0 {
        let ghost d1 = s.d();
        let ib = load(s, r.indirect);
        let mut j: usize = 0;
        while j < 128
            invariant
                j <= 128,
                kept(old(s), s),
                s.d() == free_listed(d1, s.geo, ib@, j as int),
            decreases 128 - j,
        {
            let b = dev::get32(&ib, j * 4);
            if b != 0 {
                bfree(s, b);
            }
            j += 1;
        }
        bfree(s, r.indirect);
    }
}

/// An inode without blocks.
pub open spec fn empty_ino(kind: u8) -> InoV {
    InoV { kind, size: 0, direct: Seq::new(8, |k: int| 0u32), indirect: 0 }
}

/// Cuts a file to nothing; its inode stays. False where there is no such file.
pub fn truncate_path(s: &mut Disk, path: &[u8]) -> (ok: bool)
    requires
        old(s).wf(),
    ensures
        kept(old(s), final(s)),
        match file_at(old(s).d(), old(s).geo, path@) {
            Some((i, r)) => ok && final(s).d() == ino_put(
                freed(old(s).d(), old(s).geo, r),
                old(s).geo,
                i,
                empty_ino(KIND_FILE),
            ),
            None => !ok && final(s).d() == old(s).d(),
        },
{
    let (i, rec) = match open_file(s, path) {
        Some(x) => x,
        None => {
            return false;
        },
    };
    free_ino_blocks(s, &rec);
    let e = Ino { kind: KIND_FILE, size: 0, direct: [0; 8], indirect: 0 };
    assert(e@ =~= empty_ino(KIND_FILE));
    put_ino(s, i, &e);
    true
}

// ---- making and removing ----

/// The inode is not in use.
pub open spec fn ino_free(d: DevV, g: Geo, i: u32) -> bool {
    d.at(ino_sector(g, i))[ino_off(i)] == 0
}

/// The first free inode from `i` on.
pub open spec fn first_ino(d: DevV, g: Geo, i: u32) -> Option<u32>
    decreases g.ninodes + 1 - i,
    when i >= 1
{
    if i > g.ninodes {
        None
    } else if ino_free(d, g, i) {
        Some(i)
    } else if i == u32::MAX {
        None
    } else {
        first_ino(d, g, (i + 1) as u32)
    }
}

/// A free inode taken for something empty of this kind.
pub open spec fn new_ino(d: DevV, g: Geo, kind: u8) -> (DevV, Option<u32>) {
    match first_ino(d, g, 1) {
        Some(i) => (ino_put(d, g, i, empty_ino(kind)), Some(i)),
        None => (d, None),
    }
}

fn take_ino(s: &mut Disk, kind: u8) -> (r: Option<u32>)
    requires
        old(s).wf(),
    ensures
        kept(old(s), final(s)),
        (final(s).d(), r) == new_ino(old(s).d(), old(s).geo, kind),
        r matches Some(i) ==> 1 <= i <= old(s).geo.ninodes,
{
    let n: u64 = s.geo.ninodes as u64;
    let mut k: u64 = 1;
    while k <= n
        invariant
            n == s.geo.ninodes,
            1 <= k <= n + 1,
            kept(old(s), s),
            s.d() == old(s).d(),
            first_ino(s.d(), s.geo, 1) == if k <= n {
                first_ino(s.d(), s.geo, k as u32)
            } else {
                None
            },
        decreases n + 1 - k,
    {
        let i: u32 = k as u32;
        let (lba, off) = ino_pos(&s.geo, i);
        let b = load(s, lba);
        if b[off] == 0 {
            let e = Ino { kind, size: 0, direct: [0; 8], indirect: 0 };
            assert(e@ =~= empty_ino(kind));
            put_ino(s, i, &e);
            return Some(i);
        }
        k += 1;
    }
    None
}

/// The first empty entry of a directory from `i` on; its number of entries if
/// there is none, nothing where a block of it is missing.
pub open spec fn empty_dent(d: DevV, r: InoV, i: int) -> Option<int>
    decreases dent_count(r) - i,
{
    if i >= dent_count(r) {
        Some(dent_count(r))
    } else if dent_sector(d, r, i) is None {
        None
    } else if dent_at(d, r, i) is None {
        Some(i)
    } else {
        empty_dent(d, r, i + 1)
    }
}

/// A sector with an entry put at an offset.
pub open spec fn dent_stored(b: Seq<u8>, o: int, name: Seq<u8>, c: u32) -> Seq<u8> {
    dev::with_word(over(b, o, name), o + NAME_LEN, c)
}

/// The device after an entry is made in a directory, and whether it was: in
/// the first empty place, else behind the last.
pub open spec fn inserted(d: DevV, g: Geo, parent: u32, name: Seq<u8>, c: u32) -> (DevV, bool) {
    match ino_at(d, g, parent) {
        Some(r) if r.kind == KIND_DIR => match empty_dent(d, r, 0) {
            None => (d, false),
            Some(i) => if i < dent_count(r) {
                let b = dent_sector(d, r, i)->0;
                (d.put(b, dent_stored(d.at(b as int), dent_off(i), name, c)), true)
            } else {
                let (e, q, x) = grown(d, g, parent, r, dent_block(i));
                match x {
                    None => (e, false),
                    Some(b) => {
                        let f = e.put(b, dent_stored(e.at(b as int), dent_off(i), name, c));
                        (ino_put(f, g, parent, InoV { size: (q.size + DENT) as u32, ..q }), true)
                    },
                }
            },
        },
        _ => (d, false),
    }
}

fn store_dent(x: &mut [u8; SECTOR], o: usize, name: &[u8], c: u32)
    requires
        o + DENT <= SECTOR,
        name@.len() <= NAME_LEN,
    ensures
        final(x)@ == dent_stored(old(x)@, o as int, name@, c),
{
    let ghost x0 = x@;
    let n: usize = name.len();
    let mut k: usize = 0;
    while k < n
        invariant
            k <= n,
            n == name@.len(),
            n <= NAME_LEN,
            o + DENT <= SECTOR,
            x0.len() == SECTOR,
            x@.len() == SECTOR,
            forall|j: int|
                0 <= j < SECTOR ==> #[trigger] x@[j] == if o <= j < o + k {
                    name@[j - o]
                } else {
                    x0[j]
                },
        decreases n - k,
    {
        x[o + k] = name[k];
        k += 1;
    }
    assert(x@ =~= over(x0, o as int, name@));
    dev::put32(x, o + NAME_LEN, c);
}

fn dir_insert(s: &mut Disk, parent: u32, name: &[u8], c: u32) -> (ok: bool)
    requires
        old(s).wf(),
        name@.len() <= NAME_LEN,
    ensures
        kept(old(s), final(s)),
        (final(s).d(), ok) == inserted(old(s).d(), old(s).geo, parent, name@, c),
{
    let mut rec = match get_ino(s, parent) {
        Some(r) => r,
        None => {
            return false;
        },
    };
    if rec.kind != KIND_DIR {
        return false;
    }
    let n: usize = rec.size as usize / DENT;
    let ghost d0 = s.d();
    let mut i: usize = 0;
    while i < n
        invariant
            n == dent_count(rec@),
            n <= 0x800_0000,
            i <= n,
            kept(old(s), s),
            s.d() == d0,
            d0 == old(s).d(),
            ino_at(d0, s.geo, parent) == Some(rec@),
            rec.kind == KIND_DIR,
            name@.len() <= NAME_LEN,
            empty_dent(d0, rec@, 0) == empty_dent(d0, rec@, i as int),
        decreases n - i,
    {
        let b = match find_block(s, &rec, (i / 16) as u32) {
            Some(b) => b,
            None => {
                return false;
            },
        };
        let mut x = load(s, b);
        let o: usize = i % 16 * DENT;
        if x[o] == 0 {
            store_dent(&mut x, o, name, c);
            store(s, b, &x);
            return true;
        }
        i += 1;
    }
    let b = match data_block(s, &mut rec, parent, (n / 16) as u32) {
        Some(b) => b,
        None => {
            return false;
        },
    };
    proof {
        lemma_grown_size(d0, s.geo, parent, ino_at(d0, s.geo, parent)->0, (n / 16) as u32);
    }
    let mut x = load(s, b);
    let o: usize = n % 16 * DENT;
    store_dent(&mut x, o, name, c);
    store(s, b, &x);
    rec.size = rec.size + DENT as u32;
    put_ino(s, parent, &rec);
    true
}

/// Adding a block keeps kind and size, and is only for blocks a file can have.
proof fn lemma_grown_size(d: DevV, g: Geo, i: u32, r: InoV, idx: u32)
    ensures
        grown(d, g, i, r, idx).1.size == r.size,
        grown(d, g, i, r, idx).1.kind == r.kind,
        grown(d, g, i, r, idx).2 is Some ==> idx < MAX_BLOCKS,
{
}

/// The device after something empty is made at a path, and whether it was.
pub open spec fn made(d: DevV, g: Geo, path: Seq<u8>, kind: u8) -> (DevV, bool) {
    match parent_name(d, g, path) {
        None => (d, false),
        Some((parent, name)) => {
            let (e, i) = new_ino(d, g, kind);
            match i {
                None => (e, false),
                Some(c) => inserted(e, g, parent, name, c),
            }
        },
    }
}

fn make(s: &mut Disk, path: &[u8], kind: u8) -> (ok: bool)
    requires
        old(s).wf(),
    ensures
        kept(old(s), final(s)),
        (final(s).d(), ok) == made(old(s).d(), old(s).geo, path@, kind),
{
    let (parent, name) = match split_parent(s, path) {
        Some(x) => x,
        None => {
            return false;
        },
    };
    match take_ino(s, kind) {
        Some(c) => dir_insert(s, parent, name, c),
        None => false,
    }
}

/// Makes an empty file, unless there is something at the path already. False
/// when its directory does not exist or there is no room.
pub fn create_empty(s: &mut Disk, path: &[u8]) -> (ok: bool)
    requires
        old(s).wf(),
    ensures
        kept(old(s), final(s)),
        (final(s).d(), ok) == if walked(old(s).d(), old(s).geo, path@) is Some {
            (old(s).d(), true)
        } else {
            made(old(s).d(), old(s).geo, path@, KIND_FILE)
        },
{
    if walk(s, path).is_some() {
        return true;
    }
    make(s, path, KIND_FILE)
}

/// Makes an empty directory. False when there is something at the path, its
/// directory does not exist, or there is no room.
pub fn mkdir(s: &mut Disk, path: &[u8]) -> (ok: bool)
    requires
        old(s).wf(),
    ensures
        kept(old(s), final(s)),
        (final(s).d(), ok) == if walked(old(s).d(), old(s).geo, path@) is Some {
            (old(s).d(), false)
        } else {
            made(old(s).d(), old(s).geo, path@, KIND_DIR)
        },
{
    if walk(s, path).is_some() {
        return false;
    }
    make(s, path, KIND_DIR)
}

/// A sector with an entry cleared.
pub open spec fn dent_cleared(b: Seq<u8>, o: int) -> Seq<u8> {
    over(b, o, Seq::new(DENT as nat, |k: int| 0u8))
}

/// The device after inode `i` is given up with its blocks, if it is in use.
/// A directory's blocks stay taken.
pub open spec fn dropped(d: DevV, g: Geo, i: u32) -> DevV {
    match ino_at(d, g, i) {
        Some(r) => {
            let e = if r.kind == KIND_FILE {
                freed(d, g, r)
            } else {
                d
            };
            let s = ino_sector(g, i);
            e.put(s as u32, e.at(s).update(ino_off(i), 0))
        },
        None => d,
    }
}

/// The device after a name is removed, and whether there was one.
pub open spec fn removed(d: DevV, g: Geo, path: Seq<u8>) -> (DevV, bool) {
    match parent_name(d, g, path) {
        None => (d, false),
        Some((parent, name)) => match ino_at(d, g, parent) {
            Some(r) if r.kind == KIND_DIR => match find_dent(d, r, name, 0) {
                None => (d, false),
                Some(i) => {
                    let b = dent_sector(d, r, i)->0;
                    let c = (dent_at(d, r, i)->0).1;
                    let e = d.put(b, dent_cleared(d.at(b as int), dent_off(i)));
                    (dropped(e, g, c), true)
                },
            },
            _ => (d, false),
        },
    }
}

/// Removes a name and what it leads to. False where there is none.
pub fn unlink(s: &mut Disk, path: &[u8]) -> (ok: bool)
    requires
        old(s).wf(),
    ensures
        kept(old(s), final(s)),
        (final(s).d(), ok) == removed(old(s).d(), old(s).geo, path@),
{
    let (parent, name) = match split_parent(s, path) {
        Some(x) => x,
        None => {
            return false;
        },
    };
    let rec = match get_ino(s, parent) {
        Some(r) => r,
        None => {
            return false;
        },
    };
    if rec.kind != KIND_DIR {
        return false;
    }
    let (i, b, mut x) = match search(s, &rec, name) {
        Some(e) => e,
        None => {
            return false;
        },
    };
    let o: usize = i % 16 * DENT;
    let c = dev::get32(&x, o + NAME_LEN);
    let ghost x0 = x@;
    let mut k: usize = 0;
    while k < DENT
        invariant
            k <= DENT,
            o + DENT <= SECTOR,
            x0.len() == SECTOR,
            x@.len() == SECTOR,
            forall|j: int|
                0 <= j < SECTOR ==> #[trigger] x@[j] == if o <= j < o + k {
                    0
                } else {
                    x0[j]
                },
        decreases DENT - k,
    {
        x[o + k] = 0;
        k += 1;
    }
    assert(x@ =~= dent_cleared(x0, o as int));
    store(s, b, &x);
    if let Some(crec) = get_ino(s, c) {
        if crec.kind == KIND_FILE {
            free_ino_blocks(s, &crec);
        }
        let (lba, off) = ino_pos(&s.geo, c);
        let mut ib = load(s, lba);
        let ghost ib0 = ib@;
        ib[off] = 0;
        assert(ib@ =~= ib0.update(off as int, 0));
        store(s, lba, &ib);
    }
    true
}

// ---- room ----

/// Free blocks below `n`.
pub open spec fn free_below(d: DevV, g: Geo, n: int) -> int
    decreases n,
{
    if n <= 0 {
        0
    } else if taken(d, g, (n - 1) as u32) {
        free_below(d, g, n - 1)
    } else {
        free_below(d, g, n - 1) + 1
    }
}

/// Blocks on the disk.
pub fn total_blocks(s: &Disk) -> (n: u32)
    ensures
        n == s.geo.nblocks,
{
    s.geo.nblocks
}

/// Blocks that are not taken.
pub fn free_blocks(s: &mut Disk) -> (n: u32)
    requires
        old(s).wf(),
    ensures
        kept(old(s), final(s)),
        final(s).d() == old(s).d(),
        n == free_below(old(s).d(), old(s).geo, old(s).geo.nblocks as int),
{
    let nb: u32 = s.geo.nblocks;
    let mut n: u32 = 0;
    let mut b: u32 = 0;
    while b < nb
        invariant
            nb == s.geo.nblocks,
            nb == old(s).geo.nblocks,
            b <= nb,
            n <= b,
            kept(old(s), s),
            s.d() == old(s).d(),
            n == free_below(s.d(), s.geo, b as int),
        decreases nb - b,
    {
        let x = load(s, s.geo.bmap_lba.wrapping_add(b / 4096));
        let p = power(b % 8);
        if x[(b / 8 % 512) as usize] / p % 2 == 0 {
            assert(!taken(s.d(), s.geo, b));
            n += 1;
        } else {
            assert(taken(s.d(), s.geo, b));
        }
        b += 1;
    }
    n
}

/// A write puts no more bytes than it is given.
pub proof fn lemma_put_count(d: DevV, g: Geo, i: u32, r: InoV, off: int, buf: Seq<u8>, n: int)
    requires
        0 <= off,
        0 <= n <= buf.len(),
    ensures
        n <= put_bytes(d, g, i, r, off, buf, n).2 <= buf.len(),
    decreases buf.len() - n,
{
    if n < buf.len() {
        let pos = off + n;
        let (e, q, b) = grown(d, g, i, r, (pos / 512) as u32);
        if let Some(x) = b {
            let p = part(buf, n, pos);
            let f = e.put(x, over(e.at(x as int), pos % 512, p));
            lemma_put_count(f, g, i, q, off, buf, n + p.len());
        }
    }
}

/// A write that ends for want of a block is the same whatever stands behind
/// the first `m` bytes, if it writes no more than those.
pub proof fn lemma_put_ends(
    d: DevV,
    g: Geo,
    i: u32,
    r: InoV,
    off: int,
    u: Seq<u8>,
    w: Seq<u8>,
    m: int,
    n: int,
)
    requires
        0 <= off,
        0 <= n <= m < u.len(),
        m < w.len(),
        u.take(m) == w.take(m),
        put_bytes(d, g, i, r, off, u, n).2 <= m,
    ensures
        put_bytes(d, g, i, r, off, w, n) == put_bytes(d, g, i, r, off, u, n),
    decreases m - n,
{
    let pos = off + n;
    let (e, q, b) = grown(d, g, i, r, (pos / 512) as u32);
    if let Some(x) = b {
        let p = part(u, n, pos);
        let f = e.put(x, over(e.at(x as int), pos % 512, p));
        lemma_put_count(f, g, i, q, off, u, n + p.len());
        assert(part(w, n, pos) =~= p) by {
            assert forall|k: int| n <= k < m implies u[k] == w[k] by {
                assert(u.take(m)[k] == u[k] && w.take(m)[k] == w[k]);
            }
        }
        lemma_put_ends(f, g, i, q, off, u, w, m, n + p.len());
    }
}

} // verus!
