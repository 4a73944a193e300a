//! The kernel reads an image as it was built.
use crate::fs::dev;
use crate::fs::dev::{DevV, SECTOR};
use crate::fs::disk;
use crate::fs::disk::{Geo, InoV};
use crate::mkfs::image;
use crate::mkfs::image::{
    BIN_INO, BLOCK, BMAP_LBA, INO_LBA, JLBA, KIND_DIR, MAX_FILES, NAME_LEN, NBLOCKS, ROOT_INO, SIZE,
};
use crate::mkfs::laws;
use crate::mkfs::laws::Parts;
use vstd::prelude::*;

verus! {

/// A device that holds an image.
pub open spec fn disk_of(d: Seq<u8>) -> DevV {
    DevV {
        ready: true,
        secs: Seq::new(NBLOCKS as nat, |b: int| d.subrange(b * BLOCK, b * BLOCK + BLOCK)),
        log: Seq::empty(),
    }
}

/// Where the kernel finds things on an image.
pub open spec fn geo(d: Seq<u8>) -> Geo {
    Geo {
        nblocks: NBLOCKS,
        bmap_lba: BMAP_LBA,
        ino_lba: INO_LBA,
        ninodes: image::ninodes(d) as u32,
        root: ROOT_INO,
    }
}

/// The image starts with its description.
pub open spec fn labelled(d: Seq<u8>) -> bool {
    laws::same_bytes(image::described(image::ninodes(d), 13), d, 0, BLOCK as int)
}

/// Sectors and bytes of an image.
pub proof fn lemma_at(d: Seq<u8>, b: int)
    requires
        d.len() == SIZE,
        0 <= b < NBLOCKS,
    ensures
        disk_of(d).at(b).len() == SECTOR,
        forall|k: int| 0 <= k < SECTOR ==> #[trigger] disk_of(d).at(b)[k] == d[b * BLOCK + k],
{
    assert(disk_of(d).at(b) == d.subrange(b * BLOCK, b * BLOCK + BLOCK));
}

pub proof fn lemma_word_at(d: Seq<u8>, b: int, o: int)
    requires
        d.len() == SIZE,
        0 <= b < NBLOCKS,
        0 <= o,
        o + 4 <= SECTOR,
    ensures
        dev::word(disk_of(d).at(b), o) == dev::word(d, b * BLOCK + o),
{
    lemma_at(d, b);
    let x = disk_of(d).at(b);
    assert(x[o] == d[b * BLOCK + o] && x[o + 1] == d[b * BLOCK + (o + 1)] && x[o + 2] == d[b * BLOCK + (o + 2)]
        && x[o + 3] == d[b * BLOCK + (o + 3)]);
}

/// The inode as the kernel reads it.
pub open spec fn ino_of(d: Seq<u8>, i: int) -> InoV {
    let io = image::ino_pos(i);
    InoV {
        kind: d[io],
        size: dev::word(d, io + 4),
        direct: Seq::new(8, |k: int| dev::word(d, io + 8 + k * 4)),
        indirect: dev::word(d, io + 40),
    }
}

/// An inode of the table as the kernel reads it, in use or not.
pub proof fn lemma_ino_words(d: Seq<u8>, i: u32)
    requires
        image::wf(d),
        image::is_ino(d, i as int),
    ensures
        disk::ino_in(
            disk_of(d).at(disk::ino_sector(geo(d), i)),
            disk::ino_off(i),
        ) == ino_of(d, i as int),
{
    let io = image::ino_pos(i as int);
    image::lemma_ino_room(d, i as int);
    let b = disk::ino_sector(geo(d), i);
    let o = disk::ino_off(i);
    assert(b * BLOCK + o == io) by {
        assert((i - 1) == (i - 1) / 8 * 8 + (i - 1) % 8);
    }
    assert(0 <= b < NBLOCKS && 0 <= o && o + 64 <= SECTOR);
    lemma_at(d, b);
    let x = disk_of(d).at(b);
    assert(x[o] == d[b * BLOCK + o]);
    lemma_word_at(d, b, o + 4);
    lemma_word_at(d, b, o + 40);
    assert forall|k: int| 0 <= k < 8 implies #[trigger] dev::word(x, o + 8 + k * 4) == dev::word(d, io + 8 + k * 4) by {
        lemma_word_at(d, b, o + 8 + k * 4);
    }
    assert(disk::ino_in(x, o).direct =~= ino_of(d, i as int).direct);
}

proof fn lemma_ino(d: Seq<u8>, i: u32)
    requires
        image::wf(d),
        image::is_ino(d, i as int),
        disk::is_kind(image::kind_of(d, i as int)),
    ensures
        disk::ino_at(disk_of(d), geo(d), i) == Some(ino_of(d, i as int)),
{
    lemma_ino_words(d, i);
}

/// Word `k` of the description as the kernel reads it.
proof fn lemma_label(d: Seq<u8>, k: int)
    requires
        d.len() == SIZE,
        labelled(d),
        0 <= k < 13,
    ensures
        dev::word(disk_of(d).at(0), 8 + 4 * k) == image::description(image::ninodes(d))[k],
{
    let n = image::ninodes(d);
    let t = image::described(n, 13);
    lemma_word_at(d, 0, 8 + 4 * k);
    laws::lemma_word_same(t, d, 8 + 4 * k);
    image::lemma_described(n, k);
}

proof fn lemma_label_name(d: Seq<u8>)
    requires
        d.len() == SIZE,
        labelled(d),
    ensures
        dev::word(disk_of(d).at(0), 0) == disk::MAGIC0,
        dev::word(disk_of(d).at(0), 4) == disk::MAGIC1,
{
    let t = image::described(image::ninodes(d), 13);
    assert(t.take(8) =~= image::magic());
    image::lemma_magic(t);
    lemma_word_at(d, 0, 0);
    lemma_word_at(d, 0, 4);
    laws::lemma_word_same(t, d, 0);
    laws::lemma_word_same(t, d, 4);
}

/// The kernel mounts an image that starts with its description and has a root
/// directory.
pub proof fn law_mounts(d: Seq<u8>)
    requires
        labelled(d),
        laws::tidy(d, ROOT_INO as int),
    ensures
        disk::mountable(disk_of(d)),
        disk::geo_of(disk_of(d).at(0)) == geo(d),
{
    lemma_label_name(d);
    lemma_label(d, 0);
    lemma_label(d, 1);
    lemma_label(d, 2);
    lemma_label(d, 4);
    lemma_label(d, 6);
    lemma_label(d, 8);
    lemma_ino(d, ROOT_INO);
}

// ---- names ----

proof fn lemma_name(d: Seq<u8>, b: int, o: int, k: int)
    requires
        d.len() == SIZE,
        0 <= b < NBLOCKS,
        0 <= o,
        o + NAME_LEN <= SECTOR,
        0 <= k <= NAME_LEN,
    ensures
        disk::name_end(disk_of(d).at(b), o, k) == image::name_end(d, b * BLOCK + o, k),
        k <= image::name_end(d, b * BLOCK + o, k) <= NAME_LEN,
    decreases NAME_LEN - k,
{
    lemma_at(d, b);
    if k < NAME_LEN {
        assert(disk_of(d).at(b)[o + k] == d[b * BLOCK + (o + k)]);
        lemma_name(d, b, o, k + 1);
    }
}

/// An entry as the kernel reads it.
proof fn lemma_dent(d: Seq<u8>, i: int, x: int)
    requires
        laws::tidy(d, i),
        0 <= x < image::ent_count(d, i),
    ensures
        disk::dent_sector(disk_of(d), ino_of(d, i), x) == Some(image::ent_block(d, i, x) as u32),
        disk::dent_at(disk_of(d), ino_of(d, i), x) == if d[image::ent_pos(d, i, x)] == 0 {
            None
        } else {
            Some(
                (
                    image::name_at(d, image::ent_pos(d, i, x)),
                    dev::word(d, image::ent_pos(d, i, x) + NAME_LEN),
                ),
            )
        },
{
    laws::lemma_ent(d, i, x);
    let b = image::ent_block(d, i, x);
    let o = disk::dent_off(x);
    let p = image::ent_pos(d, i, x);
    assert(p == b * BLOCK + o);
    assert(0 <= x / 16 < 8);
    assert(ino_of(d, i).direct[x / 16] == dev::word(d, image::ino_pos(i) + 8 + (x / 16) * 4));
    lemma_at(d, b);
    let s = disk_of(d).at(b);
    assert(s[o] == d[b * BLOCK + o]);
    lemma_name(d, b, o, 0);
    let n = image::name_end(d, p, 0);
    assert(disk::name_at(s, o) =~= image::name_at(d, p)) by {
        assert forall|k: int| 0 <= k < n implies disk::name_at(s, o)[k] == image::name_at(d, p)[k] by {
            assert(s[o + k] == d[b * BLOCK + (o + k)]);
        }
    }
    lemma_word_at(d, b, o + NAME_LEN);
}

proof fn lemma_find_dent(d: Seq<u8>, i: int, name: Seq<u8>, x: int)
    requires
        laws::tidy(d, i),
        laws::name_ok(name),
        0 <= x,
    ensures
        disk::find_dent(disk_of(d), ino_of(d, i), name, x) == image::find(d, i, name, x),
        image::find(d, i, name, x) matches Some(u) ==> d[image::ent_pos(d, i, u)] != 0 && u
            < image::ent_count(d, i),
    decreases image::ent_count(d, i) - x,
{
    assert(disk::dent_count(ino_of(d, i)) == image::ent_count(d, i));
    if x < image::ent_count(d, i) {
        lemma_dent(d, i, x);
        laws::lemma_ent(d, i, x);
        let p = image::ent_pos(d, i, x);
        if d[p] == 0 {
            assert(image::name_at(d, p).len() == 0);
        }
        lemma_find_dent(d, i, name, x + 1);
    }
}

/// The kernel finds a name in a directory where the image has it.
pub proof fn law_finds(d: Seq<u8>, i: u32, name: Seq<u8>)
    requires
        laws::tidy(d, i as int),
        laws::name_ok(name),
    ensures
        disk::child(disk_of(d), geo(d), i, name) == image::looked_up(d, i as int, name),
{
    lemma_ino(d, i);
    lemma_find_dent(d, i as int, name, 0);
    if let Some(u) = image::find(d, i as int, name, 0) {
        laws::lemma_find(d, i as int, name, 0);
        lemma_dent(d, i as int, u);
    }
}

// ---- data ----

/// Longest file that the kernel reads.
pub const KERNEL_MAX: usize = 69632;

/// The kernel has the same blocks of a file.
proof fn lemma_block(d: Seq<u8>, i: int, f: Parts, data: Seq<u8>, k: u32)
    requires
        laws::whole(d, i, f, data),
        data.len() <= KERNEL_MAX,
        k * BLOCK < data.len(),
    ensures
        k < f.p.len(),
        3 <= f.p[k as int] < NBLOCKS,
        disk::block_of(disk_of(d), ino_of(d, i), k) == Some(f.p[k as int] as u32),
        laws::holds(d, f.p[k as int], image::piece(data, k as int)),
{
    laws::lemma_more(d, i, f, data, k as int);
    let io = image::ino_pos(i);
    if k < 8 {
        assert(ino_of(d, i).direct[k as int] == dev::word(d, io + 8 + k * 4));
    } else {
        assert(f.ind != 0 && dev::word(d, io + 40) == f.ind);
        lemma_word_at(d, f.ind, (k - 8) * 4);
    }
}

/// The kernel reads the data of a file, if it is not too long for it.
pub proof fn law_reads(d: Seq<u8>, i: int, f: Parts, data: Seq<u8>)
    requires
        laws::whole(d, i, f, data),
        data.len() <= KERNEL_MAX,
    ensures
        disk::complete(disk_of(d), ino_of(d, i)),
        disk::content(disk_of(d), ino_of(d, i)) == data,
{
    let r = ino_of(d, i);
    let v = disk_of(d);
    assert(r.size == data.len());
    assert forall|pos: int| 0 <= pos < r.size implies #[trigger] disk::has_byte(v, r, pos) by {
        lemma_block(d, i, f, data, (pos / 512) as u32);
    }
    assert forall|pos: int| 0 <= pos < data.len() implies disk::content(v, r)[pos] == data[pos] by {
        let k = pos / 512;
        lemma_block(d, i, f, data, k as u32);
        let b = f.p[k];
        lemma_at(d, b);
        assert(v.at(b)[pos % 512] == d[b * BLOCK + pos % 512]);
        let p = image::piece(data, k);
        assert(p[pos % 512] == data[pos]);
        assert(d[b * BLOCK + pos % 512] == p[pos % 512]);
    }
    assert(disk::content(v, r) =~= data);
}

// ---- paths ----

/// A name that can stand in a path.
pub open spec fn path_part(name: Seq<u8>) -> bool {
    laws::name_ok(name) && forall|k: int| 0 <= k < name.len() ==> #[trigger] name[k] != 0x2f
}

/// The path of a file in the root directory.
pub open spec fn root_path(name: Seq<u8>) -> Seq<u8> {
    seq![0x2fu8] + name
}

proof fn lemma_slash_end(p: Seq<u8>, a: int, i: int)
    requires
        0 <= a <= i <= p.len(),
        forall|k: int| a <= k < p.len() ==> #[trigger] p[k] != 0x2f,
    ensures
        disk::slash(p, i) == p.len(),
    decreases p.len() - i,
{
    if i < p.len() {
        lemma_slash_end(p, a, i + 1);
    }
}

/// The last part of a path is looked up in the directory that the rest leads
/// to.
proof fn lemma_last_part(v: DevV, g: Geo, cur: u32, p: Seq<u8>, i: int, name: Seq<u8>)
    requires
        0 <= i,
        path_part(name),
        p.len() == i + name.len(),
        p.subrange(i, p.len() as int) == name,
    ensures
        disk::walk_from(v, g, cur, p, i) == match disk::child(v, g, cur, name) {
            Some(c) => if disk::ino_at(v, g, c) is None {
                None
            } else {
                Some(c)
            },
            None => None,
        },
{
    assert forall|k: int| i <= k < p.len() implies #[trigger] p[k] != 0x2f by {
        assert(p[k] == p.subrange(i, p.len() as int)[k - i]);
    }
    lemma_slash_end(p, i, i);
    if let Some(c) = disk::child(v, g, cur, name) {
        assert(disk::walk_from(v, g, c, p, p.len() as int) == Some(c));
    }
}

/// A file that was added to the root directory is what the kernel finds at
/// its path, and it reads the same data.
pub proof fn law_kernel_reads_added(d: Seq<u8>, name: Seq<u8>, data: Seq<u8>)
    requires
        labelled(d),
        laws::tidy(d, ROOT_INO as int),
        path_part(name),
        image::looked_up(d, ROOT_INO as int, name) is None,
        data.len() <= KERNEL_MAX,
        image::added(d, ROOT_INO as int, name, data) is Some,
    ensures
        ({
            let g = image::added(d, ROOT_INO as int, name, data)->0;
            let v = disk_of(g);
            &&& labelled(g)
            &&& disk::mountable(v)
            &&& disk::file_at(v, disk::geo_of(v.at(0)), root_path(name)) matches Some((i, r)) && disk::complete(
                v,
                r,
            ) && disk::content(v, r) == data
        }),
{
    let g = image::added(d, ROOT_INO as int, name, data)->0;
    let v = disk_of(g);
    laws::lemma_added(d, ROOT_INO as int, name, data);
    let i = image::first_ino(d, 1)->0;
    let f = choose|f: Parts| #[trigger] laws::whole(g, i, f, data);
    let t = image::described(image::ninodes(d), 13);
    assert forall|k: int| 0 <= k < BLOCK implies #[trigger] g[k] == t[k] by {
        assert(g[k] == d[k]);
        assert(d[k] == t[k]);
    }
    assert(labelled(g));
    law_mounts(g);
    law_finds(g, ROOT_INO, name);
    lemma_ino(g, i as u32);
    law_reads(g, i, f, data);
    let p = root_path(name);
    assert(p.subrange(1, p.len() as int) =~= name);
    lemma_last_part(v, geo(g), ROOT_INO, p, 1, name);
    assert(disk::slash(p, 0) == 0);
    assert(disk::walk_from(v, geo(g), ROOT_INO, p, 0) == disk::walk_from(v, geo(g), ROOT_INO, p, 1));
}

/// The path of a program.
pub open spec fn bin_path(name: Seq<u8>) -> Seq<u8> {
    seq![0x2fu8] + image::bin_name() + seq![0x2fu8] + name
}

/// A program's path leads through the root to the directory for programs.
proof fn lemma_bin_walk(v: DevV, s: Geo, name: Seq<u8>)
    requires
        path_part(name),
        s.root == ROOT_INO,
        disk::child(v, s, ROOT_INO, image::bin_name()) == Some(BIN_INO),
        disk::ino_at(v, s, BIN_INO) is Some,
        disk::child(v, s, BIN_INO, name) matches Some(c) && disk::ino_at(v, s, c) is Some,
    ensures
        disk::walked(v, s, bin_path(name)) == disk::child(v, s, BIN_INO, name),
{
    let p = bin_path(name);
    let bin = image::bin_name();
    assert(p.subrange(5, p.len() as int) =~= name);
    assert(p.subrange(1, 4) =~= bin);
    lemma_last_part(v, s, BIN_INO, p, 5, name);
    assert(p[0] == 0x2f && p[1] == 0x62 && p[2] == 0x69 && p[3] == 0x6e && p[4] == 0x2f);
    assert(disk::slash(p, 4) == 4);
    assert(disk::slash(p, 3) == 4);
    assert(disk::slash(p, 2) == 4);
    assert(disk::slash(p, 1) == 4);
    assert(disk::walk_from(v, s, BIN_INO, p, 4) == disk::walk_from(v, s, BIN_INO, p, 5));
    assert(disk::walk_from(v, s, ROOT_INO, p, 1) == disk::walk_from(v, s, BIN_INO, p, 4));
    assert(disk::walk_from(v, s, ROOT_INO, p, 0) == disk::walk_from(v, s, ROOT_INO, p, 1));
}

/// A program that was added to the directory for programs is what the kernel
/// finds at its path, and it reads the same data.
#[verifier::spinoff_prover]
#[verifier::rlimit(40)]
pub proof fn law_kernel_reads_program(d: Seq<u8>, name: Seq<u8>, data: Seq<u8>)
    requires
        labelled(d),
        laws::tidy(d, ROOT_INO as int),
        laws::tidy(d, BIN_INO as int),
        laws::dirs_apart(d, ROOT_INO as int, BIN_INO as int),
        image::looked_up(d, ROOT_INO as int, image::bin_name()) == Some(BIN_INO),
        path_part(name),
        image::looked_up(d, BIN_INO as int, name) is None,
        data.len() <= KERNEL_MAX,
        image::added(d, BIN_INO as int, name, data) is Some,
    ensures
        ({
            let g = image::added(d, BIN_INO as int, name, data)->0;
            let v = disk_of(g);
            &&& labelled(g)
            &&& disk::mountable(v)
            &&& disk::file_at(v, disk::geo_of(v.at(0)), bin_path(name)) matches Some((i, r)) && disk::complete(
                v,
                r,
            ) && disk::content(v, r) == data
        }),
{
    let g = image::added(d, BIN_INO as int, name, data)->0;
    let v = disk_of(g);
    let bin = image::bin_name();
    laws::lemma_added(d, BIN_INO as int, name, data);
    laws::law_add_keeps_dirs(d, BIN_INO as int, name, data, ROOT_INO as int, bin);
    let i = image::first_ino(d, 1)->0;
    let f = choose|f: Parts| #[trigger] laws::whole(g, i, f, data);
    let t = image::described(image::ninodes(d), 13);
    assert forall|k: int| 0 <= k < BLOCK implies #[trigger] g[k] == t[k] by {
        assert(g[k] == d[k]);
        assert(d[k] == t[k]);
    }
    law_mounts(g);
    law_finds(g, ROOT_INO, bin);
    law_finds(g, BIN_INO, name);
    lemma_ino(g, BIN_INO);
    lemma_ino(g, i as u32);
    law_reads(g, i, f, data);
    lemma_bin_walk(v, geo(g), name);
}

/// The kernel mounts an empty image.
pub proof fn law_fresh_mounts(nfiles: int)
    requires
        0 <= nfiles <= MAX_FILES,
    ensures
        labelled(image::fresh(nfiles)),
        disk::mountable(disk_of(image::fresh(nfiles))),
{
    laws::law_fresh(nfiles);
    law_mounts(image::fresh(nfiles));
}

// ---- an empty image, byte by byte ----

/// The kernel's bitmap is the image's.
pub proof fn lemma_taken(d: Seq<u8>, x: u32)
    requires
        d.len() == SIZE,
        x < NBLOCKS,
    ensures
        disk::taken(disk_of(d), geo(d), x) == image::used(d, x as int),
{
    let s = disk::map_sector(geo(d), x);
    lemma_at(d, s);
    assert(disk_of(d).at(s)[disk::map_off(x)] == d[s * BLOCK + disk::map_off(x)]);
    assert(s * BLOCK + disk::map_off(x) == BLOCK + x / 8) by {
        assert(x / 4096 == x / 8 / 512);
    }
}

/// Inode table and blocks of an empty image: a root with one block, which
/// holds one entry, and a directory without any.
#[verifier::spinoff_prover]
#[verifier::rlimit(40)]
pub proof fn lemma_fresh_bytes(nfiles: int) -> (b: int)
    requires
        0 <= nfiles <= MAX_FILES,
    ensures
        ({
            let d = image::fresh(nfiles);
            let n = image::inodes_for(nfiles);
            &&& image::wf(d)
            &&& image::ninodes(d) == n
            &&& image::data_lba(n) <= b < JLBA
            &&& image::used(d, b)
            &&& d[1536] == KIND_DIR
            &&& d[1600] == KIND_DIR
            &&& dev::word(d, 1540) == 512
            &&& dev::word(d, 1544) == b
            &&& forall|j: int| 1548 <= j < 1580 ==> #[trigger] d[j] == 0
            &&& forall|j: int| 1604 <= j < 1644 ==> #[trigger] d[j] == 0
            &&& forall|j: int| 1664 <= j < image::data_lba(n) * BLOCK ==> #[trigger] d[j] == 0
            &&& forall|j: int| b * BLOCK + 32 <= j < b * BLOCK + BLOCK ==> #[trigger] d[j] == 0
            &&& d[b * BLOCK] != 0
        }),
{
    let n = image::inodes_for(nfiles);
    let r = image::reserved(n);
    image::lemma_reserved(n);
    let e = image::ino_set(r, 1, KIND_DIR, 0);
    image::lemma_ino_set(r, 1, KIND_DIR, 0);
    let h = image::ino_set(e, 2, KIND_DIR, 0);
    image::lemma_ino_set(e, 2, KIND_DIR, 0);
    image::lemma_empty_root(h, n);
    laws::law_fresh(nfiles);
    let d = image::fresh(nfiles);
    assert(image::ino_pos(1) == 1536 && image::ino_pos(2) == 1600);
    assert(image::size_of(h, 1) == 0) by {
        assert(laws::same_bytes(e, h, 1540, 4));
        laws::lemma_word_same(e, h, 1540);
    }
    let (f, b) = image::grabbed(h)->0;
    laws::lemma_grab(h);
    let f1 = dev::with_word(f, 1544, b as u32);
    let f2 = dev::with_word(f1, 1540, 512u32);
    assert(d == image::ent_put(f2, b * BLOCK, image::bin_name(), 2));
    assert(forall|j: int| 1536 <= j < image::data_lba(n) * BLOCK ==> #[trigger] d[j] == f2[j]);
    assert forall|j: int| 1548 <= j < 1580 implies #[trigger] d[j] == 0 by {
        assert(d[j] == f2[j] && f[j] == h[j] && h[j] == e[j] && e[j] == r[j]);
    }
    assert forall|j: int| 1604 <= j < 1644 implies #[trigger] d[j] == 0 by {
        assert(d[j] == f2[j] && f[j] == h[j]);
        assert(e[j] == r[j]);
    }
    assert forall|j: int| 1664 <= j < image::data_lba(n) * BLOCK implies #[trigger] d[j] == 0 by {
        assert(d[j] == f2[j] && f[j] == h[j] && h[j] == e[j] && e[j] == r[j]);
    }
    assert forall|j: int| b * BLOCK + 32 <= j < b * BLOCK + BLOCK implies #[trigger] d[j] == 0 by {
        assert(d[j] == f2[j] && f2[j] == f[j]);
    }
    assert(d[b * BLOCK] == 0x62);
    dev::law_word_stored(f, 1544, b as u32, 1544);
    dev::law_word_stored(f1, 1540, 512, 1540);
    dev::law_word_stored(f1, 1540, 512, 1544);
    assert(laws::same_bytes(f2, d, 1540, 8));
    laws::lemma_word_same(f2, d, 1540);
    laws::lemma_word_same(f2, d, 1544);
    assert(image::used(d, b)) by {
        assert(image::used(f, b));
        assert(d[BLOCK + b / 8] == f[BLOCK + b / 8]);
    }
    b
}

pub proof fn lemma_zero_word(d: Seq<u8>, o: int)
    requires
        0 <= o,
        o + 4 <= d.len(),
        d[o] == 0,
        d[o + 1] == 0,
        d[o + 2] == 0,
        d[o + 3] == 0,
    ensures
        dev::word(d, o) == 0,
{
}

} // verus!
