//! Calls on descriptors, one after another: what an open finds, what a read
//! gives of a write, and where the bytes of a pipe go.
use crate::fs::disk;
use crate::fs::names;
use crate::fs::ramfs;
use crate::fs::ramfs::RamV;
use crate::fs::sound;
use crate::fs::vfs::FsV;
use crate::sys::fd;
use crate::sys::file;
use crate::sys::file::FilesV;
use crate::task::state::{Fd, SchedV, MAX_HART, NFD};
use vstd::prelude::*;

verus! {

/// Hart `h` runs process `s.current[h]`, which has a table of descriptors.
pub open spec fn calls(s: SchedV, h: int) -> bool {
    &&& s.wf()
    &&& 0 <= h < MAX_HART
    &&& s.current[h] < s.procs.len()
    &&& s.procs[s.current[h] as int] is Some
}

/// Its descriptors.
pub open spec fn fds(s: SchedV, h: int) -> Seq<Fd> {
    (s.procs[s.current[h] as int]->0).fds
}

/// Between the states only descriptor `i` of the caller may differ.
pub open spec fn only_fd(a: SchedV, b: SchedV, h: int, i: int) -> bool {
    &&& calls(b, h)
    &&& b == (SchedV { procs: b.procs, ..a })
    &&& b.procs.len() == a.procs.len()
    &&& forall|j: int|
        0 <= j < a.procs.len() && j != a.current[h] ==> #[trigger] b.procs[j] == a.procs[j]
    &&& forall|j: int| 0 <= j < NFD && j != i ==> #[trigger] fds(b, h)[j] == fds(a, h)[j]
    &&& (b.procs[a.current[h] as int]->0) == (crate::task::state::ProcV {
        fds: fds(b, h),
        ..a.procs[a.current[h] as int]->0
    })
}

pub proof fn lemma_table(s: SchedV, h: int, i: int, f: Fd)
    requires
        calls(s, h),
        0 <= i < NFD,
    ensures
        fd::busy(s, h),
        fd::table(s, h) == fds(s, h),
        ({
            let t = fd::with_table(s, h, fds(s, h).update(i, f));
            only_fd(s, t, h, i) && fds(t, h)[i] == f && fds(t, h) == fds(s, h).update(i, f)
        }),
{
}

proof fn lemma_free_first(t: Seq<Fd>, i: int)
    requires
        0 <= i,
    ensures
        match fd::first_free(t, i) {
            Some(j) => i <= j < NFD && t[j].kind == 0 && forall|x: int| i <= x < j ==> (#[trigger] t[x]).kind != 0,
            None => forall|x: int| i <= x < NFD ==> (#[trigger] t[x]).kind != 0,
        },
    decreases NFD - i,
{
    if i < NFD {
        lemma_free_first(t, i + 1);
    }
}

// ---- opening ----

/// Something can be read whole at the path: a file, or a program that comes
/// with the kernel.
pub open spec fn there(fs: FsV, path: Seq<u8>) -> bool {
    fs.whole(path) is Some
}

/// An open gives the lowest free descriptor from 3 on; it stands for the path,
/// from its start. Every other descriptor, and every other process, is as
/// before; so is all where it fails.
pub proof fn law_open_gives_a_descriptor(s: SchedV, k: FilesV, h: int, path: Seq<u8>, flags: i32)
    requires
        calls(s, h),
        k.reg.len() < u64::MAX,
    ensures
        ({
            let (t, l, r) = file::open_call(s, k, h, Some(path), flags);
            &&& r >= 0 <==> (there(k.fs, path) || flags & 0x40 != 0) && exists|j: int|
                3 <= j < NFD && (#[trigger] fds(s, h)[j]).kind == 0
            &&& r < 0 ==> r == -1 && t == s && l.reg == k.reg
            &&& r >= 0 ==> {
                &&& 3 <= r < NFD
                &&& fds(s, h)[r].kind == 0
                &&& forall|j: int| 3 <= j < r ==> (#[trigger] fds(s, h)[j]).kind != 0
                &&& only_fd(s, t, h, r)
                &&& fds(t, h)[r].kind == 4
                &&& fds(t, h)[r].off == 0
                &&& fds(t, h)[r].path < l.reg.len()
                &&& l.reg[fds(t, h)[r].path as int] == path
                &&& forall|j: int| 0 <= j < k.reg.len() ==> #[trigger] l.reg[j] == k.reg[j]
            }
            &&& l.pipes == k.pipes && l.uart == k.uart
        }),
{
    let t = fds(s, h);
    lemma_free_first(t, 3);
    lemma_table(s, h, 3, t[3]);
    if let Some(k2) = file::ready_to_open(k, path, flags) {
        if let Some(i) = fd::first_free(t, 3) {
            let (reg, id) = file::registered(k2.reg, path);
            file::lemma_place(k2.reg, path, 0);
            lemma_table(s, h, i, Fd { kind: 4, off: 0, path: id as u64, id: i as i32, ..t[i] });
        }
    }
}

/// An open without the flag that truncates changes no file that is there.
pub proof fn law_open_keeps_bytes(s: SchedV, k: FilesV, h: int, path: Seq<u8>, flags: i32)
    requires
        there(k.fs, path),
        flags & 0x200 == 0,
    ensures
        file::open_call(s, k, h, Some(path), flags).1.fs == k.fs,
{
}

/// An open of what is not there, without the flag that makes files, changes
/// nothing.
pub proof fn law_open_needs_a_file(s: SchedV, k: FilesV, h: int, path: Seq<u8>, flags: i32)
    requires
        !there(k.fs, path),
        flags & 0x40 == 0,
    ensures
        file::open_call(s, k, h, Some(path), flags) == (s, k, -1int),
{
}

/// After an open that truncates, a file kept in memory is empty, and every other
/// is as before.
pub proof fn law_open_truncates_in_memory(s: SchedV, k: FilesV, h: int, path: Seq<u8>, flags: i32, other: Seq<u8>)
    requires
        !k.fs.on_disk,
        flags & 0x200 != 0,
        file::open_call(s, k, h, Some(path), flags).2 >= 0,
    ensures
        ({
            let l = file::open_call(s, k, h, Some(path), flags).1;
            &&& !l.fs.on_disk
            &&& l.fs.ram.file(path) == Some(Seq::<u8>::empty())
            &&& l.fs.size(path) == Some(0int)
            &&& l.fs.whole(path) == Some(Seq::<u8>::empty())
            &&& other != path ==> l.fs.ram.file(other) == k.fs.ram.file(other)
            &&& l.fs.ram.dirs == k.fs.ram.dirs
        }),
{
    ramfs::law_write_then_read(k.fs.ram, path, Seq::empty(), other);
    ramfs::lemma_find(k.fs.ram.files, path, 0);
}

/// After an open that truncates, a file on the disk has length 0 and no bytes,
/// the disk is in order, and no other file is touched.
pub proof fn law_open_truncates_on_disk(s: SchedV, k: FilesV, h: int, path: Seq<u8>, flags: i32)
    requires
        k.fs.on_disk,
        names::orderly(k.fs.d, k.fs.g),
        flags & 0x200 != 0,
        disk::file_at(k.fs.d, k.fs.g, path) is Some,
        disk::complete(k.fs.d, (disk::file_at(k.fs.d, k.fs.g, path)->0).1),
    ensures
        ({
            let l = file::open_call(s, k, h, Some(path), flags).1;
            let (i, r) = disk::file_at(k.fs.d, k.fs.g, path)->0;
            &&& l.fs == (FsV { d: l.fs.d, ..k.fs })
            &&& names::orderly(l.fs.d, l.fs.g)
            &&& disk::file_at(l.fs.d, l.fs.g, path) is Some
            &&& (disk::file_at(l.fs.d, l.fs.g, path)->0).0 == i
            &&& (disk::file_at(l.fs.d, l.fs.g, path)->0).1.size == 0
            &&& l.fs.size(path) == Some(0int)
            &&& l.fs.whole(path) == Some(Seq::<u8>::empty())
            &&& sound::apart_from(k.fs.d, l.fs.d, k.fs.g, i)
        }),
{
    let (i, r) = disk::file_at(k.fs.d, k.fs.g, path)->0;
    names::law_truncate_empties(k.fs.d, k.fs.g, path);
    let l = file::open_call(s, k, h, Some(path), flags).1;
    let q = disk::empty_ino(disk::KIND_FILE);
    assert(k.fs.whole(path) is Some);
    assert(disk::content(l.fs.d, q) =~= Seq::<u8>::empty());
}

/// An open that makes a file in memory leaves it empty, and every other as
/// before.
pub proof fn law_open_makes_in_memory(s: SchedV, k: FilesV, h: int, path: Seq<u8>, flags: i32, other: Seq<u8>)
    requires
        !k.fs.on_disk,
        k.fs.ram.file(path) is None,
        flags & 0x40 != 0,
    ensures
        ({
            let l = file::open_call(s, k, h, Some(path), flags).1;
            &&& l.fs.ram.file(path) == Some(Seq::<u8>::empty())
            &&& other != path ==> l.fs.ram.file(other) == k.fs.ram.file(other)
        }),
{
    ramfs::law_write_then_read(k.fs.ram, path, Seq::empty(), other);
}

// ---- files in memory ----

/// The file at a path is the first in the list that has it.
pub proof fn law_file_is_listed(r: RamV, path: Seq<u8>)
    ensures
        match r.file(path) {
            Some(v) => exists|i: int|
                0 <= i < r.files.len() && (#[trigger] r.files[i]).path == path && r.files[i].data == v && (forall|j: int|
                    0 <= j < i ==> (#[trigger] r.files[j]).path != path),
            None => forall|i: int| 0 <= i < r.files.len() ==> (#[trigger] r.files[i]).path != path,
        },
{
    ramfs::lemma_find(r.files, path, 0);
}

/// A write puts its bytes at the descriptor's offset, keeps all others of the
/// file, fills a gap before the offset with zeros, moves the descriptor behind
/// what it wrote, and touches no other file.
pub proof fn law_write_in_memory(s: SchedV, k: FilesV, h: int, i: i32, src: Seq<u8>, other: Seq<u8>)
    requires
        calls(s, h),
        !k.fs.on_disk,
        0 <= i < NFD,
        src.len() > 0,
        ({
            let f = fds(s, h)[i as int];
            &&& f.kind == 4
            &&& f.path < k.reg.len()
            &&& f.off + src.len() <= u64::MAX
            &&& k.fs.ram.file(k.reg[f.path as int]) is Some
        }),
    ensures
        ({
            let f = fds(s, h)[i as int];
            let path = k.reg[f.path as int];
            let a = k.fs.ram.file(path)->0;
            let w = file::write_call(s, k, h, i, src);
            let b = w.k.fs.ram.file(path)->0;
            &&& w.n == src.len()
            &&& !w.console
            &&& w.k.fs.ram.file(path) is Some
            &&& b.len() == if f.off + src.len() > a.len() { f.off + src.len() } else { a.len() as int }
            &&& b.subrange(f.off as int, f.off + src.len()) == src
            &&& forall|x: int|
                0 <= x < b.len() && !(f.off <= x < f.off + src.len()) ==> #[trigger] b[x] == if x < a.len() {
                    a[x]
                } else {
                    0u8
                }
            &&& other != path ==> w.k.fs.ram.file(other) == k.fs.ram.file(other)
            &&& w.k.pipes == k.pipes && w.k.reg == k.reg
            &&& only_fd(s, w.s, h, i as int)
            &&& fds(w.s, h)[i as int] == (Fd { off: (f.off + src.len()) as u64, ..f })
        }),
{
    let f = fds(s, h)[i as int];
    let path = k.reg[f.path as int];
    lemma_table(s, h, i as int, Fd { off: (f.off + src.len()) as u64, ..f });
    let a = k.fs.ram.file(path)->0;
    let b = ramfs::put(a, f.off as int, src);
    ramfs::lemma_find(k.fs.ram.files, path, 0);
    ramfs::law_write_then_read(k.fs.ram, path, b, other);
    assert(b.subrange(f.off as int, f.off + src.len()) =~= src);
}

/// A read gives the file's bytes from the descriptor's offset on, as many as
/// there are and the buffer takes, and moves the descriptor behind them.
pub proof fn law_read_in_memory(s: SchedV, k: FilesV, h: int, i: i32, held: Seq<u8>, buf: Seq<u8>)
    requires
        calls(s, h),
        !k.fs.on_disk,
        0 <= i < NFD,
        buf.len() > 0,
        ({
            let f = fds(s, h)[i as int];
            &&& f.kind == 4
            &&& f.path < k.reg.len()
            &&& f.off + buf.len() <= u64::MAX
            &&& k.fs.ram.file(k.reg[f.path as int]) is Some
        }),
    ensures
        ({
            let f = fds(s, h)[i as int];
            let a = k.fs.ram.file(k.reg[f.path as int])->0;
            let r = file::read_call(s, k, h, i, held, buf);
            &&& 0 <= r.n <= buf.len()
            &&& f.off <= a.len() ==> f.off + r.n <= a.len() && r.buf.take(r.n) == a.subrange(f.off as int, f.off + r.n)
            &&& f.off <= a.len() ==> r.n == buf.len() || f.off + r.n == a.len()
            &&& f.off > a.len() ==> r.n == 0
            &&& r.buf.len() == buf.len() && r.buf.skip(r.n) == buf.skip(r.n)
            &&& r.k == k
            &&& only_fd(s, r.s, h, i as int)
            &&& fds(r.s, h)[i as int] == (Fd { off: (f.off + r.n) as u64, ..f })
        }),
{
    let f = fds(s, h)[i as int];
    let a = k.fs.ram.file(k.reg[f.path as int])->0;
    let r = file::read_call(s, k, h, i, held, buf);
    lemma_table(s, h, i as int, Fd { off: (f.off + r.n) as u64, ..f });
    assert(r.buf.skip(r.n) =~= buf.skip(r.n));
    if f.off <= a.len() {
        assert(r.buf.take(r.n) =~= a.subrange(f.off as int, f.off + r.n));
    }
}

// ---- files on the disk ----

/// What a write puts on a sound disk, a read at the same offset gives back; the
/// descriptor stands behind it, and no other file is touched.
pub proof fn law_disk_write_reads_back(s: SchedV, k: FilesV, h: int, i: i32, src: Seq<u8>, held: Seq<u8>, buf: Seq<u8>)
    requires
        calls(s, h),
        k.fs.on_disk,
        sound::sound(k.fs.d, k.fs.g),
        0 <= i < NFD,
        src.len() > 0,
        buf.len() > 0,
        buf.len() == file::write_call(s, k, h, i, src).n,
        ({
            let f = fds(s, h)[i as int];
            &&& f.kind == 4
            &&& f.path < k.reg.len()
            &&& f.off + src.len() <= u32::MAX
            &&& disk::file_at(k.fs.d, k.fs.g, k.reg[f.path as int]) is Some
        }),
    ensures
        ({
            let f = fds(s, h)[i as int];
            let path = k.reg[f.path as int];
            let w = file::write_call(s, k, h, i, src);
            let r = file::read_call(s, w.k, h, i, held, buf);
            &&& 0 <= w.n <= src.len()
            &&& only_fd(s, w.s, h, i as int)
            &&& fds(w.s, h)[i as int] == (Fd { off: (f.off + w.n) as u64, ..f })
            &&& sound::apart_from(k.fs.d, w.k.fs.d, k.fs.g, (disk::file_at(k.fs.d, k.fs.g, path)->0).0)
            &&& w.k == (FilesV { fs: FsV { d: w.k.fs.d, ..k.fs }, ..k })
            &&& r.n == w.n
            &&& r.buf == src.take(w.n)
            &&& fds(r.s, h)[i as int] == fds(w.s, h)[i as int]
        }),
{
    let f = fds(s, h)[i as int];
    let path = k.reg[f.path as int];
    sound::law_write_then_read(k.fs.d, k.fs.g, path, f.off as int, src);
    let w = file::write_call(s, k, h, i, src);
    lemma_table(s, h, i as int, Fd { off: (f.off + w.n) as u64, ..f });
    let r = file::read_call(s, w.k, h, i, held, buf);
    assert(r.buf =~= src.take(w.n));
}

/// A descriptor that was copied and its copy stand for the same thing at the
/// same place; the copy is the lowest that was free.
pub proof fn law_dup_copies(s: SchedV, h: int, i: i32)
    requires
        calls(s, h),
    ensures
        ({
            let (t, r) = fd::doubled(s, h, i);
            &&& r >= 0 <==> 0 <= i < NFD && fds(s, h)[i as int].kind != 0 && exists|j: int|
                0 <= j < NFD && (#[trigger] fds(s, h)[j]).kind == 0
            &&& r < 0 ==> r == -1 && t == s
            &&& r >= 0 ==> {
                &&& 0 <= r < NFD
                &&& fds(s, h)[r].kind == 0
                &&& forall|j: int| 0 <= j < r ==> (#[trigger] fds(s, h)[j]).kind != 0
                &&& only_fd(s, t, h, r)
                &&& fds(t, h)[r].kind == fds(s, h)[i as int].kind
                &&& fds(t, h)[r].off == fds(s, h)[i as int].off
                &&& fds(t, h)[r].path == fds(s, h)[i as int].path
            }
        }),
{
    let t = fds(s, h);
    lemma_free_first(t, 0);
    lemma_table(s, h, 0, t[0]);
    if 0 <= i < NFD && t[i as int].kind != 0 {
        if let Some(j) = fd::first_free(t, 0) {
            lemma_table(
                s,
                h,
                j,
                Fd { kind: t[i as int].kind, off: t[i as int].off, path: t[i as int].path, id: j as i32, ..t[j] },
            );
        }
    }
}

// ---- pipes ----

/// A pipe's two ends are new descriptors, the lowest that were free, of one new
/// pipe that is empty; all others are as before.
pub proof fn law_pipe_has_two_ends(s: SchedV, k: FilesV, h: int, addr: u64)
    requires
        calls(s, h),
        addr != 0,
        k.pipes.len() < u64::MAX,
    ensures
        ({
            let (t, l, e) = file::pipe_call(s, k, h, addr);
            &&& e matches Some((r, w)) ==> {
                &&& 3 <= r < w < NFD
                &&& fds(s, h)[r].kind == 0 && fds(s, h)[w].kind == 0
                &&& forall|j: int| 3 <= j < w && j != r ==> (#[trigger] fds(s, h)[j]).kind != 0
                &&& fds(t, h)[r].kind == 5 && fds(t, h)[w].kind == 6
                &&& fds(t, h)[r].path == k.pipes.len() && fds(t, h)[w].path == k.pipes.len()
                &&& forall|j: int| 0 <= j < NFD && j != r && j != w ==> #[trigger] fds(t, h)[j] == fds(s, h)[j]
                &&& calls(t, h)
                &&& forall|j: int|
                    0 <= j < s.procs.len() && j != s.current[h] ==> #[trigger] t.procs[j] == s.procs[j]
            }
            &&& l.pipes.len() == k.pipes.len() + 1
            &&& l.pipes.last() == Seq::<u8>::empty()
            &&& forall|j: int| 0 <= j < k.pipes.len() ==> #[trigger] l.pipes[j] == k.pipes[j]
            &&& l.fs == k.fs && l.reg == k.reg && l.uart == k.uart
            &&& e is None ==> !exists|a: int, b: int|
                3 <= a < b < NFD && (#[trigger] fds(s, h)[a]).kind == 0 && (#[trigger] fds(s, h)[b]).kind == 0
        }),
{
    let t = fds(s, h);
    let id = k.pipes.len() as int;
    lemma_table(s, h, 0, t[0]);
    lemma_free_first(t, 3);
    let (t1, r) = file::pipe_end(t, 5, id);
    lemma_free_first(t1, 3);
    let (t2, w) = file::pipe_end(t1, 6, id);
    if r >= 0 {
        assert(t1[r].kind == 5);
        assert forall|j: int| 3 <= j < NFD && j != r implies #[trigger] t1[j] == t[j] by {}
        if w >= 0 {
            if w < r {
                assert(t[w].kind != 0);
                assert(t1[w].kind == 0);
            }
            assert forall|j: int| 3 <= j < w && j != r implies (#[trigger] t[j]).kind != 0 by {
                assert(t1[j] == t[j]);
            }
        } else {
            assert forall|a: int, b: int|
                3 <= a < b < NFD && (#[trigger] t[a]).kind == 0 && (#[trigger] t[b]).kind == 0 implies false by {
                let z = if a == r { b } else { a };
                assert(t1[z] == t[z]);
            }
        }
    }
    assert(fd::with_table(s, h, t2).procs[s.current[h] as int]->0 == (crate::task::state::ProcV {
        fds: t2,
        ..s.procs[s.current[h] as int]->0
    }));
}

/// What is written to one end of an empty pipe is what a read of the other end
/// gives, as far as the pipe and the buffer hold it.
pub proof fn law_pipe_carries(
    s: SchedV,
    k: FilesV,
    h: int,
    r: i32,
    w: i32,
    src: Seq<u8>,
    held: Seq<u8>,
    buf: Seq<u8>,
)
    requires
        calls(s, h),
        0 <= r < NFD,
        0 <= w < NFD,
        fds(s, h)[r as int].kind == 5,
        fds(s, h)[w as int].kind == 6,
        fds(s, h)[r as int].path == fds(s, h)[w as int].path,
        fds(s, h)[r as int].path < k.pipes.len(),
        k.pipes[fds(s, h)[r as int].path as int].len() <= 1024,
        src.len() > 0,
        buf.len() > 0,
    ensures
        ({
            let id = fds(s, h)[r as int].path as int;
            let c = k.pipes[id];
            let a = file::write_call(s, k, h, w, src);
            let b = file::read_call(a.s, a.k, h, r, held, buf);
            let all = c + src.take(a.n);
            &&& a.s == s && b.s == s
            &&& a.n == if src.len() <= 1024 - c.len() { src.len() as int } else { 1024 - c.len() }
            &&& b.n == if all.len() <= buf.len() { all.len() as int } else { buf.len() as int }
            &&& b.buf.take(b.n) == all.take(b.n)
            &&& b.buf.skip(b.n) == buf.skip(b.n)
            &&& b.k.pipes[id] == all.skip(b.n)
            &&& forall|j: int| 0 <= j < k.pipes.len() && j != id ==> #[trigger] b.k.pipes[j] == k.pipes[j]
            &&& b.k.fs == k.fs && b.k.reg == k.reg && b.k.uart == k.uart
        }),
{
    lemma_table(s, h, r as int, fds(s, h)[r as int]);
    let id = fds(s, h)[r as int].path as int;
    let c = k.pipes[id];
    let a = file::write_call(s, k, h, w, src);
    let b = file::read_call(a.s, a.k, h, r, held, buf);
    let all = c + src.take(a.n);
    assert(a.k.pipes[id] == all);
    assert(b.buf.take(b.n) =~= all.take(b.n));
    assert(b.buf.skip(b.n) =~= buf.skip(b.n));
}

// ---- the console ----

proof fn lemma_line(st: Seq<u8>, max: int, i: int)
    requires
        0 <= i <= st.len(),
        i <= max,
    ensures
        ({
            let n = file::line_end(st, max, i);
            &&& i <= n <= st.len() && n <= max
            &&& forall|x: int| i <= x < n - 1 ==> #[trigger] st[x] != 0x0a
            &&& n == max || n == st.len() || (n > i && st[n - 1] == 0x0a)
        }),
    decreases st.len() - i,
{
    if i < max && i < st.len() && st[i] != 0x0a {
        lemma_line(st, max, i + 1);
    }
}

/// A read of the console gives what was typed, up to and with the end of the
/// first line, or as much as there is or the buffer takes; what it gives is not
/// given again, and a caller that gets nothing gives up its turn.
pub proof fn law_console_reads_a_line(s: SchedV, k: FilesV, h: int, i: i32, held: Seq<u8>, buf: Seq<u8>)
    requires
        calls(s, h),
        0 <= i < NFD,
        fds(s, h)[i as int].kind == 1,
        buf.len() > 0,
    ensures
        ({
            let typed = k.uart.rx + held;
            let r = file::read_call(s, k, h, i, held, buf);
            &&& 0 <= r.n <= typed.len() && r.n <= buf.len()
            &&& r.buf.take(r.n) == typed.take(r.n)
            &&& r.buf.skip(r.n) == buf.skip(r.n)
            &&& forall|x: int| 0 <= x < r.n - 1 ==> #[trigger] typed[x] != 0x0a
            &&& r.n == buf.len() || r.n == typed.len() || (r.n > 0 && typed[r.n - 1] == 0x0a)
            &&& 0 <= r.used <= held.len()
            &&& r.k.uart.rx + held.skip(r.used) == typed.skip(r.n)
            &&& r.n > 0 ==> r.s == s
            &&& r.n == 0 ==> r.s == (SchedV { yield_flag: s.yield_flag.update(h, true), ..s })
            &&& r.k.fs == k.fs && r.k.pipes == k.pipes && r.k.reg == k.reg
        }),
{
    lemma_table(s, h, i as int, fds(s, h)[i as int]);
    let typed = k.uart.rx + held;
    lemma_line(typed, buf.len() as int, 0);
    let r = file::read_call(s, k, h, i, held, buf);
    assert(r.buf.take(r.n) =~= typed.take(r.n));
    assert(r.buf.skip(r.n) =~= buf.skip(r.n));
    assert(r.k.uart.rx + held.skip(r.used) =~= typed.skip(r.n));
}

/// A write to the console sends all its bytes there, and changes nothing else.
pub proof fn law_console_writes(s: SchedV, k: FilesV, h: int, i: i32, src: Seq<u8>)
    requires
        calls(s, h),
        0 <= i < NFD,
        fds(s, h)[i as int].kind == 2,
        src.len() > 0,
    ensures
        file::write_call(s, k, h, i, src) == (file::WriteV { s, k, n: src.len() as int, console: true }),
{
    lemma_table(s, h, i as int, fds(s, h)[i as int]);
}

/// Nothing is read from or written to a descriptor that is free, is none, or
/// stands for the other direction.
pub proof fn law_wrong_descriptor(s: SchedV, k: FilesV, h: int, i: i32, held: Seq<u8>, buf: Seq<u8>, src: Seq<u8>)
    requires
        calls(s, h),
    ensures
        !(0 <= i < NFD) || fds(s, h)[i as int].kind == 0 || fds(s, h)[i as int].kind == 2 || fds(
            s,
            h,
        )[i as int].kind == 6 ==> file::read_call(s, k, h, i, held, buf) == (file::ReadV {
            s,
            k,
            buf,
            n: 0,
            used: 0,
        }),
        !(0 <= i < NFD) || fds(s, h)[i as int].kind == 0 || fds(s, h)[i as int].kind == 1 || fds(
            s,
            h,
        )[i as int].kind == 5 ==> file::write_call(s, k, h, i, src) == (file::WriteV { s, k, n: 0, console: false }),
{
    if 0 <= i < NFD {
        lemma_table(s, h, i as int, fds(s, h)[i as int]);
    }
}

// ---- status ----

/// The status of an open file has its size, and tells a directory from a file.
pub proof fn law_status_of_a_file(s: SchedV, k: FilesV, h: int, i: i32, out: u64)
    requires
        calls(s, h),
        0 <= i < NFD,
        out != 0,
        fds(s, h)[i as int].kind == 4,
        fds(s, h)[i as int].path < k.reg.len(),
    ensures
        ({
            let path = k.reg[fds(s, h)[i as int].path as int];
            let r = file::fstat_call(s, k, h, i, out);
            &&& r is Some
            &&& !k.fs.on_disk && k.fs.ram.file(path) is Some ==> (r->0).0 == 4 && (r->0).1 == (k.fs.ram.file(
                path,
            )->0).len() as u32 && (r->0).2 == 1
            &&& k.fs.on_disk && path != seq![0x2fu8] ==> match disk::walked(k.fs.d, k.fs.g, path) {
                Some(n) => match disk::ino_at(k.fs.d, k.fs.g, n) {
                    Some(x) => (r->0).1 == x.size && ((r->0).0 == 2 <==> x.kind == 2) && ((r->0).0 == 4 <==> x.kind != 2),
                    None => (r->0).1 == 0,
                },
                None => (r->0).1 == 0,
            }
        }),
{
    lemma_table(s, h, i as int, fds(s, h)[i as int]);
}

// ---- names ----

/// The names one after another, each with a zero behind it.
pub open spec fn zero_ended(n: Seq<Seq<u8>>) -> Seq<u8>
    decreases n.len(),
{
    if n.len() == 0 {
        Seq::empty()
    } else {
        n[0].push(0) + zero_ended(n.skip(1))
    }
}

/// A list of names is the first of them in order, each with a zero behind it, as
/// many as fit.
pub proof fn law_names_are_packed(names: Seq<Seq<u8>>, i: int, room: int)
    requires
        0 <= i <= names.len(),
        0 <= room,
    ensures
        ({
            let (c, b) = file::packed(names, i, room);
            &&& 0 <= c <= names.len() - i
            &&& b == zero_ended(names.subrange(i, i + c))
            &&& b.len() <= room
            &&& i + c < names.len() ==> b.len() + names[i + c].len() + 1 > room
        }),
    decreases names.len() - i,
{
    if !(i >= names.len() || names[i].len() + 1 > room) {
        law_names_are_packed(names, i + 1, room - names[i].len() - 1);
        let (c, b) = file::packed(names, i, room);
        assert(names.subrange(i, i + c).skip(1) =~= names.subrange(i + 1, i + c));
    } else {
        assert(names.subrange(i, i) =~= Seq::empty());
    }
}

} // verus!
