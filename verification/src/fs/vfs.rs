//! One face for the two file systems: the disk when it could be mounted, the
//! files in memory otherwise.
use crate::fs::blk;
use crate::fs::dev::DevV;
use crate::fs::disk;
use crate::fs::disk::{Disk, Geo, KIND_FILE};
use crate::fs::ramfs;
use crate::fs::ramfs::{File, FileV, RamFs, RamV};
use vstd::prelude::*;

verus! {

broadcast use {blk::lemma_accessed_none, blk::lemma_accessed_on};

pub struct Fs {
    pub disk: Disk,
    pub ram: RamFs,
    pub on_disk: bool,
    /// Programs that come with the kernel, by name.
    pub embed: Vec<File>,
}

#[verifier::ext_equal]
pub struct FsV {
    /// Sectors of the disk, and where things are on it.
    pub d: DevV,
    pub g: Geo,
    pub mounted: bool,
    pub ram: RamV,
    pub on_disk: bool,
    pub embed: Seq<FileV>,
}

pub open spec fn files_view(v: Seq<File>) -> Seq<FileV> {
    Seq::new(v.len(), |i: int| v[i]@)
}

impl View for Fs {
    type V = FsV;

    open spec fn view(&self) -> FsV {
        FsV {
            d: self.disk.d(),
            g: self.disk.geo,
            mounted: self.disk.mounted,
            ram: self.ram@,
            on_disk: self.on_disk,
            embed: files_view(self.embed@),
        }
    }
}

impl Fs {
    pub open spec fn wf(&self) -> bool {
        self.disk.wf()
    }
}

/// Files on a disk that is not mounted yet, next to programs that come with
/// the kernel.
pub fn new(disk: Disk, embed: Vec<File>) -> (s: Fs)
    requires
        disk.wf(),
    ensures
        s.wf(),
        s@ == (FsV {
            d: disk.d(),
            g: disk.geo,
            mounted: disk.mounted,
            ram: ramfs::fresh(),
            on_disk: false,
            embed: files_view(embed@),
        }),
{
    Fs { disk, ram: ramfs::init(), on_disk: false, embed }
}

pub fn use_disk(s: &Fs) -> (r: bool)
    ensures
        r == s.on_disk,
{
    s.on_disk
}

// ---- start ----

/// The directory of programs.
pub open spec fn bin() -> Seq<u8> {
    seq![0x2fu8, 0x62u8, 0x69u8, 0x6eu8, 0x2fu8]
}

/// The first `n` programs stored below the directory of programs.
pub open spec fn seeded(s: RamV, p: Seq<FileV>, n: int) -> RamV
    decreases n,
{
    if n <= 0 {
        s
    } else {
        seeded(s, p, n - 1).written(bin() + p[n - 1].path, p[n - 1].data)
    }
}

/// Where the text that greets a user lies.
pub open spec fn readme_path() -> Seq<u8> {
    seq![0x2fu8, 0x52u8, 0x45u8, 0x41u8, 0x44u8, 0x4du8, 0x45u8]
}

fn append(v: &mut Vec<u8>, b: &Vec<u8>)
    ensures
        final(v)@ == old(v)@ + b@,
{
    let mut i: usize = 0;
    assert(v@ =~= old(v)@ + b@.take(0));
    while i < b.len()
        invariant
            i <= b@.len(),
            v@ == old(v)@ + b@.take(i as int),
        decreases b@.len() - i,
    {
        v.push(b[i]);
        i += 1;
        assert(v@ =~= old(v)@ + b@.take(i as int));
    }
    assert(b@.take(i as int) =~= b@);
}

/// Mounts the disk. Where that fails, the files in memory start with the
/// programs that come with the kernel and the text that greets a user.
pub fn init(s: &mut Fs, readme: &[u8])
    requires
        old(s).wf(),
    ensures
        final(s).wf(),
        blk::accessed(old(s).disk.blk, final(s).disk.blk),
        disk::mountable(old(s)@.d) ==> final(s)@ == (FsV {
            g: disk::geo_of(old(s)@.d.at(0)),
            mounted: true,
            on_disk: true,
            ..old(s)@
        }),
        !disk::mountable(old(s)@.d) ==> final(s)@ == (FsV {
            g: if disk::described(old(s)@.d) {
                disk::geo_of(old(s)@.d.at(0))
            } else {
                old(s)@.g
            },
            ram: seeded(ramfs::fresh(), old(s)@.embed, old(s)@.embed.len() as int).written(
                readme_path(),
                readme@,
            ),
            ..old(s)@
        }),
{
    if disk::mount(&mut s.disk) {
        s.on_disk = true;
        return;
    }
    let ghost g = s.disk.geo;
    s.ram = ramfs::init();
    let n: usize = s.embed.len();
    let mut i: usize = 0;
    while i < n
        invariant
            n == s.embed@.len(),
            i <= n,
            s.wf(),
            blk::accessed(old(s).disk.blk, s.disk.blk),
            s@ == (FsV {
                g,
                ram: seeded(ramfs::fresh(), old(s)@.embed, i as int),
                ..old(s)@
            }),
        decreases n - i,
    {
        let mut path: Vec<u8> = Vec::new();
        path.push(0x2f);
        path.push(0x62);
        path.push(0x69);
        path.push(0x6e);
        path.push(0x2f);
        assert(path@ =~= bin());
        append(&mut path, &s.embed[i].path);
        assert(s@.embed[i as int] == s.embed@[i as int]@);
        ramfs::write_file(&mut s.ram, path.as_slice(), s.embed[i].data.as_slice());
        i += 1;
    }
    let r: [u8; 7] = [0x2f, 0x52, 0x45, 0x41, 0x44, 0x4d, 0x45];
    assert(r@ =~= readme_path());
    ramfs::write_file(&mut s.ram, r.as_slice(), readme);
}

// ---- reading ----

/// What follows the last slash.
pub open spec fn base_name(p: Seq<u8>) -> Seq<u8> {
    p.skip(disk::last_slash(p, p.len() as int) + 1)
}

fn basename<'a>(path: &'a [u8]) -> (r: &'a [u8])
    ensures
        r@ == base_name(path@),
{
    let len: usize = path.len();
    let mut n: usize = len;
    while n > 0 && path[n - 1] != 0x2f
        invariant
            n <= len,
            len == path@.len(),
            disk::last_slash(path@, path@.len() as int) == disk::last_slash(path@, n as int),
        decreases n,
    {
        n -= 1;
    }
    let r = vstd::slice::slice_subrange(path, n, len);
    assert(r@ =~= base_name(path@));
    r
}

/// A program that comes with the kernel.
pub open spec fn program(e: Seq<FileV>, name: Seq<u8>) -> Option<Seq<u8>> {
    match ramfs::find(e, name, 0) {
        Some(i) => Some(e[i].data),
        None => None,
    }
}

/// The program of this name that comes with the kernel.
pub fn get_by_name(embed: &Vec<File>, name: &[u8]) -> (r: Option<Vec<u8>>)
    ensures
        match r {
            Some(v) => program(files_view(embed@), name@) == Some(v@),
            None => program(files_view(embed@), name@) is None,
        },
{
    let mut i: usize = 0;
    while i < embed.len()
        invariant
            i <= embed@.len(),
            ramfs::find(files_view(embed@), name@, 0) == ramfs::find(
                files_view(embed@),
                name@,
                i as int,
            ),
        decreases embed@.len() - i,
    {
        assert(files_view(embed@)[i as int] == embed@[i as int]@);
        if ramfs::same(&embed[i].path, name) {
            return Some(ramfs::to_vec(embed[i].data.as_slice()));
        }
        i += 1;
    }
    None
}

/// The bytes of a file that can be read to its end.
pub open spec fn disk_file(d: DevV, g: Geo, path: Seq<u8>) -> Option<Seq<u8>> {
    match disk::file_at(d, g, path) {
        Some((i, r)) => if disk::complete(d, r) {
            Some(disk::content(d, r))
        } else {
            None
        },
        None => None,
    }
}

impl FsV {
    /// What reading a whole file gives.
    pub open spec fn whole(self, path: Seq<u8>) -> Option<Seq<u8>> {
        if self.on_disk {
            match disk_file(self.d, self.g, path) {
                Some(v) => Some(v),
                None => program(self.embed, base_name(path)),
            }
        } else {
            self.ram.file(path)
        }
    }
}

/// The bytes of a file. A program that the disk lacks is the one that comes
/// with the kernel.
pub fn read_file(s: &mut Fs, path: &[u8]) -> (r: Option<Vec<u8>>)
    requires
        old(s).wf(),
    ensures
        final(s).wf(),
        blk::accessed(old(s).disk.blk, final(s).disk.blk),
        final(s)@ == old(s)@,
        match r {
            Some(v) => old(s)@.whole(path@) == Some(v@),
            None => old(s)@.whole(path@) is None,
        },
{
    if s.on_disk {
        match disk::read_file(&mut s.disk, path) {
            Some(v) => Some(v),
            None => get_by_name(&s.embed, basename(path)),
        }
    } else {
        ramfs::read_file(&s.ram, path)
    }
}

/// Reads from a file at an offset; returns how many bytes.
pub fn read_at(s: &mut Fs, path: &[u8], off: usize, buf: &mut [u8]) -> (n: usize)
    requires
        old(s).wf(),
    ensures
        final(s).wf(),
        blk::accessed(old(s).disk.blk, final(s).disk.blk),
        final(s)@ == old(s)@,
        final(buf)@.len() == old(buf)@.len(),
        (n as int, final(buf)@) == old(s)@.read(path@, off as int, old(buf)@),
{
    let ghost b0 = buf@;
    if s.on_disk {
        let n = disk::read_at(&mut s.disk, path, off, buf);
        assert(buf@ =~= old(s)@.read(path@, off as int, b0).1);
        n
    } else {
        let n = ramfs::read_at(&s.ram, path, off, buf);
        assert(buf@ =~= old(s)@.read(path@, off as int, b0).1);
        n
    }
}

impl FsV {
    /// How many bytes are read at an offset, and what the buffer then holds.
    pub open spec fn read(self, path: Seq<u8>, off: int, buf: Seq<u8>) -> (int, Seq<u8>) {
        if self.on_disk {
            match disk::file_at(self.d, self.g, path) {
                Some((i, r)) => {
                    let n = disk::readable(self.d, r, off, buf.len() as int);
                    (
                        n,
                        Seq::new(
                            buf.len(),
                            |k: int|
                                if k < n {
                                    disk::byte_of(self.d, r, off + k)
                                } else {
                                    buf[k]
                                },
                        ),
                    )
                },
                None => (0, buf),
            }
        } else {
            match self.ram.file(path) {
                Some(v) => {
                    let n = ramfs::span(v.len(), off, buf.len());
                    (
                        n,
                        Seq::new(
                            buf.len(),
                            |k: int|
                                if k < n {
                                    v[off + k]
                                } else {
                                    buf[k]
                                },
                        ),
                    )
                },
                None => (0, buf),
            }
        }
    }
}

/// The size of a file.
pub fn file_len(s: &mut Fs, path: &[u8]) -> (r: Option<usize>)
    requires
        old(s).wf(),
    ensures
        final(s).wf(),
        blk::accessed(old(s).disk.blk, final(s).disk.blk),
        final(s)@ == old(s)@,
        match r {
            Some(n) => old(s)@.size(path@) == Some(n as int),
            None => old(s)@.size(path@) is None,
        },
{
    if s.on_disk {
        disk::file_len(&mut s.disk, path)
    } else {
        ramfs::file_len(&s.ram, path)
    }
}

impl FsV {
    /// The size of a file.
    pub open spec fn size(self, path: Seq<u8>) -> Option<int> {
        if self.on_disk {
            match disk::file_at(self.d, self.g, path) {
                Some((i, x)) => Some(x.size as int),
                None => None,
            }
        } else {
            match self.ram.file(path) {
                Some(v) => Some(v.len() as int),
                None => None,
            }
        }
    }

    /// There is something at a path.
    pub open spec fn has(self, path: Seq<u8>) -> bool {
        if self.on_disk {
            path == seq![0x2fu8] || disk::walked(self.d, self.g, path) is Some
        } else {
            path == seq![0x2fu8] || self.ram.is_dir(path) || self.ram.file(path) is Some
        }
    }

    /// Kind, size and names of what is at a path.
    pub open spec fn status(self, path: Seq<u8>) -> (u8, u32, u32) {
        if self.on_disk {
            if path == seq![0x2fu8] {
                (2, 0, 1)
            } else {
                match disk::walked(self.d, self.g, path) {
                    Some(i) => match disk::ino_at(self.d, self.g, i) {
                        Some(x) => (x.kind, x.size, 1),
                        None => (0, 0, 0),
                    },
                    None => (0, 0, 0),
                }
            }
        } else if self.ram.file(path) is Some {
            (1, (self.ram.file(path)->0).len() as u32, 1)
        } else if self.has(path) {
            (2, 0, 1)
        } else {
            (0, 0, 0)
        }
    }

    /// Names in a directory.
    pub open spec fn names(self, path: Seq<u8>) -> Seq<Seq<u8>> {
        if self.on_disk {
            match disk::walked(self.d, self.g, path) {
                Some(i) => match disk::ino_at(self.d, self.g, i) {
                    Some(r) if r.kind == disk::KIND_DIR => disk::listing(self.d, self.g, r, 0),
                    _ => Seq::empty(),
                },
                None => Seq::empty(),
            }
        } else {
            ramfs::file_names(
                self.ram.files,
                ramfs::dir_prefix(path),
                self.ram.files.len() as int,
            ) + ramfs::dir_names(
                self.ram.dirs,
                ramfs::dir_prefix(path),
                self.ram.dirs.len() as int,
            )
        }
    }
}

/// Whether there is something at a path.
pub fn exists_path(s: &mut Fs, path: &[u8]) -> (r: bool)
    requires
        old(s).wf(),
    ensures
        final(s).wf(),
        blk::accessed(old(s).disk.blk, final(s).disk.blk),
        final(s)@ == old(s)@,
        r == old(s)@.has(path@),
{
    if s.on_disk {
        disk::exists_path(&mut s.disk, path)
    } else {
        ramfs::exists_path(&s.ram, path)
    }
}

/// Kind (1 a file, 2 a directory, 0 nothing), size and number of names.
pub fn stat(s: &mut Fs, path: &[u8]) -> (r: (u8, u32, u32))
    requires
        old(s).wf(),
    ensures
        final(s).wf(),
        blk::accessed(old(s).disk.blk, final(s).disk.blk),
        final(s)@ == old(s)@,
        r == old(s)@.status(path@),
{
    if s.on_disk {
        let (k, n) = disk::stat(&mut s.disk, path);
        if k == 0 {
            (0, 0, 0)
        } else {
            (k, n, 1)
        }
    } else {
        match ramfs::file_len(&s.ram, path) {
            Some(n) => (1, n as u32, 1),
            None => if ramfs::exists_path(&s.ram, path) {
                (2, 0, 1)
            } else {
                (0, 0, 0)
            },
        }
    }
}

/// Names in a directory, directories with a slash.
pub fn list_dir(s: &mut Fs, path: &[u8]) -> (out: Vec<Vec<u8>>)
    requires
        old(s).wf(),
    ensures
        final(s).wf(),
        blk::accessed(old(s).disk.blk, final(s).disk.blk),
        final(s)@ == old(s)@,
        disk::names_view(out@) == old(s)@.names(path@),
{
    if s.on_disk {
        disk::list_dir(&mut s.disk, path)
    } else {
        let out = ramfs::list_dir(&s.ram, path);
        assert(disk::names_view(out@) =~= ramfs::names_view(out@));
        out
    }
}

/// Blocks in all and blocks not taken. The files in memory have no blocks:
/// they report as many as a disk of four mebibytes.
pub fn blocks_stat(s: &mut Fs) -> (r: (u32, u32))
    requires
        old(s).wf(),
    ensures
        final(s).wf(),
        blk::accessed(old(s).disk.blk, final(s).disk.blk),
        final(s)@ == old(s)@,
        r == if old(s)@.on_disk {
            (
                old(s)@.g.nblocks,
                disk::free_below(old(s)@.d, old(s)@.g, old(s)@.g.nblocks as int) as u32,
            )
        } else {
            (8192u32, 8192u32)
        },
{
    if s.on_disk {
        (disk::total_blocks(&s.disk), disk::free_blocks(&mut s.disk))
    } else {
        (8192, 8192)
    }
}

// ---- writing ----

/// The disk after a write at an offset, and how many bytes were written.
pub open spec fn disk_put(d: DevV, g: Geo, path: Seq<u8>, off: int, buf: Seq<u8>) -> (DevV, int) {
    match disk::file_at(d, g, path) {
        Some((i, r)) => disk::file_put(d, g, i, r, off, buf),
        None => (d, 0),
    }
}

pub open spec fn disk_cut(d: DevV, g: Geo, path: Seq<u8>) -> (DevV, bool) {
    match disk::file_at(d, g, path) {
        Some((i, r)) => (
            disk::ino_put(disk::freed(d, g, r), g, i, disk::empty_ino(KIND_FILE)),
            true,
        ),
        None => (d, false),
    }
}

pub open spec fn disk_made(d: DevV, g: Geo, path: Seq<u8>) -> DevV {
    if disk::walked(d, g, path) is Some {
        d
    } else {
        disk::made(d, g, path, KIND_FILE).0
    }
}

pub open spec fn ram_put(r: RamV, path: Seq<u8>, off: int, buf: Seq<u8>) -> (RamV, int) {
    match ramfs::find(r.files, path, 0) {
        Some(i) => (r.with_data(i, ramfs::put(r.files[i].data, off, buf)), buf.len() as int),
        None => (r, 0),
    }
}

impl FsV {
    pub open spec fn on(self, d: DevV) -> FsV {
        FsV { d, ..self }
    }

    pub open spec fn in_ram(self, ram: RamV) -> FsV {
        FsV { ram, ..self }
    }

    /// After the disk, where there is one, is marked as left in order.
    pub open spec fn left(self) -> FsV {
        if self.on_disk {
            self.on(disk::dirty_set(self.d, false))
        } else {
            self
        }
    }

    /// After a write at an offset, and how many bytes were written.
    pub open spec fn put(self, path: Seq<u8>, off: int, buf: Seq<u8>) -> (FsV, int) {
        if self.on_disk {
            let (d, n) = disk_put(self.d, self.g, path, off, buf);
            (self.on(d), n)
        } else {
            let (r, n) = ram_put(self.ram, path, off, buf);
            (self.in_ram(r), n)
        }
    }

    /// After a file is cut to nothing; false where there is none.
    pub open spec fn cut(self, path: Seq<u8>) -> (FsV, bool) {
        if self.on_disk {
            let (d, ok) = disk_cut(self.d, self.g, path);
            (self.on(d), ok)
        } else {
            match ramfs::find(self.ram.files, path, 0) {
                Some(i) => (self.in_ram(self.ram.with_data(i, Seq::empty())), true),
                None => (self, false),
            }
        }
    }

    /// After a file is replaced.
    pub open spec fn written(self, path: Seq<u8>, data: Seq<u8>) -> FsV {
        if self.on_disk {
            self.on(disk_written(self.d, self.g, path, data))
        } else {
            self.in_ram(self.ram.written(path, data))
        }
    }

    pub open spec fn with_dir(self, path: Seq<u8>) -> (FsV, bool) {
        if self.on_disk {
            if disk::walked(self.d, self.g, path) is Some {
                (self, false)
            } else {
                let (d, ok) = disk::made(self.d, self.g, path, disk::KIND_DIR);
                (self.on(d), ok)
            }
        } else if self.ram.is_dir(path) {
            (self, false)
        } else {
            (self.in_ram(RamV { dirs: self.ram.dirs.push(path), ..self.ram }), true)
        }
    }

    pub open spec fn without(self, path: Seq<u8>) -> (FsV, bool) {
        if self.on_disk {
            let (d, ok) = disk::removed(self.d, self.g, path);
            (self.on(d), ok)
        } else {
            match ramfs::find(self.ram.files, path, 0) {
                Some(i) => (
                    self.in_ram(RamV { files: self.ram.files.remove(i), ..self.ram }),
                    true,
                ),
                None => (self, false),
            }
        }
    }

    pub open spec fn linked(self, from: Seq<u8>, to: Seq<u8>) -> (FsV, bool) {
        if !self.on_disk && !self.has(to) && self.ram.file(from) is Some {
            (self.in_ram(self.ram.written(to, self.ram.file(from)->0)), true)
        } else {
            (self, false)
        }
    }
}

/// The disk after a file is replaced: cut if it could be read, made otherwise,
/// then written.
pub open spec fn disk_written(d: DevV, g: Geo, path: Seq<u8>, data: Seq<u8>) -> DevV {
    let e = if disk_file(d, g, path) is Some {
        disk_cut(d, g, path).0
    } else {
        disk_made(d, g, path)
    };
    disk_put(e, g, path, 0, data).0
}

/// Writes to a file at an offset; returns how many bytes.
pub fn write_at(s: &mut Fs, path: &[u8], off: usize, buf: &[u8]) -> (n: usize)
    requires
        old(s).wf(),
        off + buf@.len() <= usize::MAX,
    ensures
        final(s).wf(),
        blk::accessed(old(s).disk.blk, final(s).disk.blk),
        (final(s)@, n as int) == old(s)@.put(path@, off as int, buf@),
{
    if s.on_disk {
        let n = disk::write_at(&mut s.disk, path, off, buf);
        assert(s@ =~= old(s)@.on(s.disk.d()));
        n
    } else {
        let n = ramfs::write_at(&mut s.ram, path, off, buf);
        assert(s@ =~= old(s)@.in_ram(s.ram@));
        n
    }
}

/// Marks the disk, where there is one, as left in order. True if it is.
pub fn leave(s: &mut Fs) -> (marked: bool)
    requires
        old(s).wf(),
    ensures
        final(s).wf(),
        blk::accessed(old(s).disk.blk, final(s).disk.blk),
        final(s)@ == old(s)@.left(),
        marked == old(s)@.on_disk,
{
    if s.on_disk {
        disk::set_dirty(&mut s.disk, false);
        assert(s@ =~= old(s)@.on(s.disk.d()));
        true
    } else {
        false
    }
}

/// Cuts a file to nothing. False where there is no such file.
pub fn truncate(s: &mut Fs, path: &[u8]) -> (ok: bool)
    requires
        old(s).wf(),
    ensures
        final(s).wf(),
        blk::accessed(old(s).disk.blk, final(s).disk.blk),
        (final(s)@, ok) == old(s)@.cut(path@),
{
    if s.on_disk {
        let ok = disk::truncate_path(&mut s.disk, path);
        assert(s@ =~= old(s)@.on(s.disk.d()));
        ok
    } else {
        let ok = ramfs::truncate(&mut s.ram, path);
        assert(s@ =~= old(s)@.in_ram(s.ram@));
        assert(old(s)@.in_ram(old(s)@.ram) =~= old(s)@);
        ok
    }
}

/// Replaces the contents of a file, or makes it.
pub fn write_file(s: &mut Fs, path: &[u8], data: &[u8])
    requires
        old(s).wf(),
    ensures
        final(s).wf(),
        blk::accessed(old(s).disk.blk, final(s).disk.blk),
        final(s)@ == old(s)@.written(path@, data@),
{
    let n: usize = data.len();
    if s.on_disk {
        match disk::read_file(&mut s.disk, path) {
            Some(_) => {
                let _ = disk::truncate_path(&mut s.disk, path);
            },
            None => {
                let _ = disk::create_empty(&mut s.disk, path);
            },
        }
        let _ = disk::write_at(&mut s.disk, path, 0, data);
        assert(s@ =~= old(s)@.on(s.disk.d()));
    } else {
        ramfs::write_file(&mut s.ram, path, data);
        assert(s@ =~= old(s)@.in_ram(s.ram@));
    }
}

/// Makes a directory. False if there is something at the path, or it cannot
/// be made.
pub fn mkdir(s: &mut Fs, path: &[u8]) -> (ok: bool)
    requires
        old(s).wf(),
    ensures
        final(s).wf(),
        blk::accessed(old(s).disk.blk, final(s).disk.blk),
        (final(s)@, ok) == old(s)@.with_dir(path@),
{
    if s.on_disk {
        let ok = disk::mkdir(&mut s.disk, path);
        assert(s@ =~= old(s)@.on(s.disk.d()));
        assert(old(s)@.on(old(s)@.d) =~= old(s)@);
        ok
    } else {
        let ok = ramfs::mkdir(&mut s.ram, path);
        assert(s@ =~= old(s)@.in_ram(s.ram@));
        assert(old(s)@.in_ram(old(s)@.ram) =~= old(s)@);
        ok
    }
}

/// Removes what is at a path. False where there is nothing.
pub fn unlink(s: &mut Fs, path: &[u8]) -> (ok: bool)
    requires
        old(s).wf(),
    ensures
        final(s).wf(),
        blk::accessed(old(s).disk.blk, final(s).disk.blk),
        (final(s)@, ok) == old(s)@.without(path@),
{
    if s.on_disk {
        let ok = disk::unlink(&mut s.disk, path);
        assert(s@ =~= old(s)@.on(s.disk.d()));
        ok
    } else {
        let ok = ramfs::unlink(&mut s.ram, path);
        assert(s@ =~= old(s)@.in_ram(s.ram@));
        assert(old(s)@.in_ram(old(s)@.ram) =~= old(s)@);
        ok
    }
}

/// A second name for a file. A file on the disk has one name only, so there
/// this fails; a file in memory is copied.
pub fn link(s: &mut Fs, from: &[u8], to: &[u8]) -> (ok: bool)
    requires
        old(s).wf(),
    ensures
        final(s).wf(),
        blk::accessed(old(s).disk.blk, final(s).disk.blk),
        (final(s)@, ok) == old(s)@.linked(from@, to@),
{
    if s.on_disk {
        return false;
    }
    if ramfs::exists_path(&s.ram, to) {
        return false;
    }
    match ramfs::read_file(&s.ram, from) {
        Some(v) => {
            ramfs::write_file(&mut s.ram, to, v.as_slice());
            assert(s@ =~= old(s)@.in_ram(s.ram@));
            true
        },
        None => false,
    }
}

/// A write reports no more bytes than it was given.
pub proof fn lemma_put_count(f: FsV, path: Seq<u8>, off: int, buf: Seq<u8>)
    requires
        0 <= off,
    ensures
        0 <= f.put(path, off, buf).1 <= buf.len(),
{
    if f.on_disk {
        if let Some((i, r)) = disk::file_at(f.d, f.g, path) {
            disk::lemma_put_count(f.d, f.g, i, r, off, buf, 0);
        }
    }
}

} // verus!
