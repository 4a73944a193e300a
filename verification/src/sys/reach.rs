//! How far a call reaches into user memory, told before anything is done.
use crate::fs::disk;
use crate::fs::pipe;
use crate::fs::ramfs;
use crate::fs::vfs;
use crate::fs::vfs::FsV;
use crate::hw::uart::{Uart, RING_CAP};
use crate::sys::fd;
use crate::sys::fd::{FD_FILE, FD_OUT, FD_PIPE_R, FD_PIPE_W, FD_STDIN, FIRST};
use crate::sys::file;
use crate::sys::file::{Files, FilesV, ReadV};
use crate::task::state::{Fd, Sched, SchedV, MAX_HART, NFD};
use vstd::prelude::*;

verus! {

/// A buffer of zeros.
pub open spec fn blank(n: int) -> Seq<u8> {
    Seq::new(n as nat, |k: int| 0u8)
}

/// A buffer of zeros.
pub fn zeros(n: usize) -> (v: Vec<u8>)
    ensures
        v@ == blank(n as int),
{
    let mut v: Vec<u8> = Vec::new();
    let mut i: usize = 0;
    while i < n
        invariant
            i <= n,
            v@ == blank(i as int),
        decreases n - i,
    {
        v.push(0);
        i += 1;
        assert(v@ =~= blank(i as int));
    }
    v
}

/// Bytes that a read with room for `len` moves, and what it does.
pub open spec fn read_of(s: SchedV, k: FilesV, h: int, i: i32, held: Seq<u8>, len: int) -> ReadV {
    file::read_call(s, k, h, i, held, blank(len))
}

proof fn lemma_line_same(st: Seq<u8>, max: int, c: int, i: int)
    requires
        0 <= i <= st.len(),
        file::line_end(st, max, i) <= c <= max,
        i <= c,
    ensures
        file::line_end(st, c, i) == file::line_end(st, max, i),
    decreases st.len() - i,
{
    file::lemma_line_end(st, max, i);
    if i < max && i < st.len() && st[i] != 0x0a {
        file::lemma_line_end(st, max, i + 1);
        if i < c {
            lemma_line_same(st, max, c, i + 1);
        }
    }
}

proof fn lemma_readable_same(d: crate::fs::dev::DevV, r: disk::InoV, off: int, n: int, c: int)
    requires
        0 <= off,
        0 <= c <= n,
        disk::readable(d, r, off, n) <= c,
    ensures
        disk::readable(d, r, off, c) == disk::readable(d, r, off, n),
    decreases c,
{
    file::lemma_readable(d, r, off, n);
    if c > 0 && off < r.size && disk::has_byte(d, r, off) {
        lemma_readable_same(d, r, off + 1, n - 1, c - 1);
    }
}

/// Less room that still holds what is read changes nothing.
proof fn lemma_fs_read_same(f: FsV, path: Seq<u8>, off: int, len: int, c: int)
    requires
        0 <= off,
        0 <= c <= len,
        f.read(path, off, blank(len)).0 <= c,
    ensures
        f.read(path, off, blank(c)).0 == f.read(path, off, blank(len)).0,
        0 <= f.read(path, off, blank(len)).0 <= len,
        f.read(path, off, blank(c)).1.take(f.read(path, off, blank(len)).0) == f.read(
            path,
            off,
            blank(len),
        ).1.take(f.read(path, off, blank(len)).0),
{
    if f.on_disk {
        if let Some((i, r)) = disk::file_at(f.d, f.g, path) {
            file::lemma_readable(f.d, r, off, len);
            lemma_readable_same(f.d, r, off, len, c);
        }
    }
    let n = f.read(path, off, blank(len)).0;
    assert(f.read(path, off, blank(c)).1.take(n) =~= f.read(path, off, blank(len)).1.take(n));
}

/// A read is the same with any room that holds what it moves.
pub proof fn lemma_read_same(s: SchedV, k: FilesV, h: int, i: i32, held: Seq<u8>, len: int, c: int)
    requires
        0 <= c <= len,
        read_of(s, k, h, i, held, len).n <= c,
        c > 0 || len == 0,
    ensures
        ({
            let a = read_of(s, k, h, i, held, len);
            let b = read_of(s, k, h, i, held, c);
            &&& b.s == a.s
            &&& b.k == a.k
            &&& b.n == a.n
            &&& b.used == a.used
            &&& 0 <= a.n
            &&& b.buf.len() == c
            &&& b.buf.take(a.n) == a.buf.take(a.n)
        }),
{
    let a = read_of(s, k, h, i, held, len);
    let b = read_of(s, k, h, i, held, c);
    if len > 0 && fd::named(i) {
        let f = fd::table(s, h)[i as int];
        if f.kind == FD_STDIN {
            let st = k.uart.rx + held;
            file::lemma_line_end(st, len, 0);
            lemma_line_same(st, len, c, 0);
        } else if f.kind == FD_FILE {
            lemma_fs_read_same(k.fs, file::path_at(k.reg, f.path), f.off as int, len, c);
        }
    }
    assert(b.buf.take(a.n) =~= a.buf.take(a.n));
}

/// Bytes of a line that can be had.
fn line_size(u: &Uart, held: &[u8], len: u64) -> (n: u64)
    requires
        u.wf(),
    ensures
        n == file::line_end(u@.rx + held@, len as int, 0),
{
    let ghost st = u@.rx + held@;
    let rn: u64 = u.rx_n as u64;
    let mut i: u64 = 0;
    while i < len
        invariant
            u.wf(),
            st == u@.rx + held@,
            rn == u.rx_n,
            i <= len,
            i <= st.len(),
            file::line_end(st, len as int, 0) == file::line_end(st, len as int, i as int),
        decreases len - i,
    {
        let c: u8 = if i < rn {
            u.rx[(u.rx_r + i as usize) % RING_CAP]
        } else if i - rn < held.len() as u64 {
            held[(i - rn) as usize]
        } else {
            return i;
        };
        assert(c == st[i as int]);
        i += 1;
        if c == 0x0a {
            return i;
        }
    }
    i
}

/// How many bytes a read moves.
pub fn read_size(s: &Sched, k: &mut Files, h: usize, i: i32, held: &[u8], len: u64) -> (n: u64)
    requires
        h < MAX_HART,
        fd::busy(s@, h as int),
        old(k).wf(),
    ensures
        final(k).wf(),
        final(k)@ == old(k)@,
        n as int == read_of(s@, old(k)@, h as int, i, held@, len as int).n,
        n <= len,
{
    if len == 0 {
        return 0;
    }
    let f = match fd::get(s, h, i) {
        Some(f) => f,
        None => {
            return 0;
        },
    };
    if f.kind == FD_STDIN {
        proof {
            file::lemma_line_end(k@.uart.rx + held@, len as int, 0);
        }
        line_size(&k.uart, held, len)
    } else if f.kind == FD_FILE {
        let path = file::fd_path_to_string(k, f.path);
        proof {
            file::lemma_ram_bound(&k.fs, path@);
            file::lemma_read_within(k@.fs, path@, f.off as int, blank(len as int));
        }
        if f.off > usize::MAX as u64 {
            return 0;
        }
        let off: usize = f.off as usize;
        let size: usize = match vfs::file_len(&mut k.fs, path.as_slice()) {
            Some(z) => z,
            None => {
                assert(k@ =~= old(k)@);
                return 0;
            },
        };
        assert(k@ =~= old(k)@);
        let left: usize = if off < size {
            size - off
        } else {
            0
        };
        let c: usize = if (left as u64) < len {
            left
        } else {
            len as usize
        };
        let mut v = zeros(c);
        proof {
            lemma_read_end(old(k)@.fs, path@, off as int, len as int);
            lemma_fs_read_same(old(k)@.fs, path@, off as int, len as int, c as int);
        }
        let n = vfs::read_at(&mut k.fs, path.as_slice(), off, v.as_mut_slice());
        assert(k@ =~= old(k)@);
        n as u64
    } else if f.kind == FD_PIPE_R {
        if f.path >= k.pipes.v.len() as u64 {
            return 0;
        }
        let n = pipe::avail(&k.pipes, f.path as usize);
        if (n as u64) < len {
            n as u64
        } else {
            len
        }
    } else {
        0
    }
}

/// A read ends with the file.
proof fn lemma_read_end(f: FsV, path: Seq<u8>, off: int, len: int)
    requires
        0 <= off,
        0 <= len,
    ensures
        f.size(path) matches Some(z) ==> f.read(path, off, blank(len)).0 <= (if off < z {
            z - off
        } else {
            0
        }),
        f.size(path) is None ==> f.read(path, off, blank(len)).0 == 0,
{
    if f.on_disk {
        if let Some((i, r)) = disk::file_at(f.d, f.g, path) {
            file::lemma_readable(f.d, r, off, len);
        }
    }
}

/// Bytes that a write of `len` fetches: all for the console and for a file
/// with room on its disk, what fits for a pipe, and none where nothing can be
/// written.
pub open spec fn write_need(s: SchedV, k: FilesV, h: int, i: i32, len: int) -> int {
    if len == 0 || !fd::named(i) {
        0
    } else {
        let f = fd::table(s, h)[i as int];
        if f.kind == FD_OUT {
            len
        } else if f.kind == FD_FILE {
            if k.fs.size(file::path_at(k.reg, f.path)) is Some {
                len
            } else {
                0
            }
        } else if f.kind == FD_PIPE_W && f.path < k.pipes.len() {
            pipe::fit(len as nat, pipe::CAP - k.pipes[f.path as int].len())
        } else {
            0
        }
    }
}

/// How many bytes a write fetches.
pub fn write_size(s: &Sched, k: &mut Files, h: usize, i: i32, len: u64) -> (n: u64)
    requires
        h < MAX_HART,
        fd::busy(s@, h as int),
        old(k).wf(),
    ensures
        final(k).wf(),
        final(k)@ == old(k)@,
        n as int == write_need(s@, old(k)@, h as int, i, len as int),
        n <= len,
{
    if len == 0 {
        return 0;
    }
    let f = match fd::get(s, h, i) {
        Some(f) => f,
        None => {
            return 0;
        },
    };
    if f.kind == FD_OUT {
        len
    } else if f.kind == FD_FILE {
        let path = file::fd_path_to_string(k, f.path);
        let there = vfs::file_len(&mut k.fs, path.as_slice()).is_some();
        assert(k@ =~= old(k)@);
        if there {
            len
        } else {
            0
        }
    } else if f.kind == FD_PIPE_W {
        if f.path >= k.pipes.v.len() as u64 {
            return 0;
        }
        let n = pipe::avail(&k.pipes, f.path as usize);
        assert(k.pipes.v@[f.path as int].wf());
        let room: usize = pipe::CAP - n;
        if (room as u64) < len {
            room as u64
        } else {
            len
        }
    } else {
        0
    }
}

/// A write does the same whatever lies behind the bytes it fetches.
pub proof fn law_write_reaches(s: SchedV, k: FilesV, h: int, i: i32, src: Seq<u8>)
    requires
        fd::busy(s, h),
        s.wf(),
        forall|j: int| 0 <= j < k.pipes.len() ==> (#[trigger] k.pipes[j]).len() <= pipe::CAP,
    ensures
        0 <= write_need(s, k, h, i, src.len() as int) <= src.len(),
        file::write_call(s, k, h, i, src.take(write_need(s, k, h, i, src.len() as int))) == file::write_call(
            s,
            k,
            h,
            i,
            src,
        ),
{
    let n = write_need(s, k, h, i, src.len() as int);
    let a = file::write_call(s, k, h, i, src);
    let b = file::write_call(s, k, h, i, src.take(n));
    if src.len() > 0 && fd::named(i) {
        let f = fd::table(s, h)[i as int];
        let c = s.current[h] as int;
        assert(s.procs[c] is Some);
        if f.kind == FD_FILE && n == 0 {
            let path = file::path_at(k.reg, f.path);
            assert(k.fs.put(path, f.off as int, src) == (k.fs, 0int)) by {
                assert(k.fs.on(k.fs.d) =~= k.fs);
                assert(k.fs.in_ram(k.fs.ram) =~= k.fs);
            }
            assert(fd::table(s, h).update(i as int, f) =~= fd::table(s, h));
            assert(file::moved(s, h, i, 0).procs =~= s.procs);
            assert(file::moved(s, h, i, 0) =~= s);
        } else if f.kind == FD_PIPE_W && f.path < k.pipes.len() {
            let p = k.pipes[f.path as int];
            assert(src.take(n).take(n) =~= src.take(n));
            assert(p + src.take(0) =~= p);
            if n == 0 {
                assert(k.pipes.update(f.path as int, p) =~= k.pipes);
            }
        }
        assert(n == src.len() ==> src.take(n) =~= src);
    } else {
        assert(src.len() == 0 ==> src.take(n) =~= src);
    }
}

/// A write to a file on disk ends with these bytes, or before: there is no
/// block for the byte that follows them, whatever it is.
pub open spec fn ends_with(s: SchedV, k: FilesV, h: int, i: i32, src: Seq<u8>) -> bool {
    &&& k.fs.on_disk
    &&& fd::fd_at(s, h, i) matches Some(f) && f.kind == FD_FILE
    &&& file::write_call(s, k, h, i, src.push(0)).n <= src.len()
}

/// Whether a write ends so. It is tried on a copy of the disk.
pub fn write_ends(s: &Sched, k: &Files, h: usize, i: i32, src: &[u8]) -> (r: bool)
    requires
        h < MAX_HART,
        fd::busy(s@, h as int),
        k.wf(),
        fd::fd_at(s@, h as int, i) matches Some(f) ==> f.off + src@.len() < usize::MAX,
    ensures
        r == ends_with(s@, k@, h as int, i, src@),
{
    if !k.fs.on_disk {
        return false;
    }
    let f = match fd::get(s, h, i) {
        Some(f) => f,
        None => {
            return false;
        },
    };
    if f.kind != FD_FILE {
        return false;
    }
    let path = file::fd_path_to_string(k, f.path);
    let mut d = disk::copy(&k.fs.disk);
    let mut v = ramfs::to_vec(src);
    v.push(0);
    assert(v@ =~= src@.push(0));
    let n = disk::write_at(&mut d, path.as_slice(), f.off as usize, v.as_slice());
    n <= src.len()
}

/// A write that ends with some bytes does the same whatever stands behind
/// them.
pub proof fn law_write_ends(s: SchedV, k: FilesV, h: int, i: i32, src: Seq<u8>, all: Seq<u8>)
    requires
        ends_with(s, k, h, i, src),
        src.len() < all.len(),
        all.take(src.len() as int) == src,
    ensures
        file::write_call(s, k, h, i, all) == file::write_call(s, k, h, i, src.push(0)),
{
    let f = fd::table(s, h)[i as int];
    let path = file::path_at(k.reg, f.path);
    if let Some((x, q)) = disk::file_at(k.fs.d, k.fs.g, path) {
        assert(src.push(0).take(src.len() as int) =~= src);
        disk::lemma_put_ends(k.fs.d, k.fs.g, x, q, f.off as int, src.push(0), all, src.len() as int, 0);
    }
}

/// Two descriptors are free for a pipe.
pub open spec fn two_free(t: Seq<Fd>) -> bool {
    fd::first_free(t, FIRST as int) matches Some(i) && fd::first_free(t, i + 1) is Some
}

proof fn lemma_skips(t: Seq<Fd>, u: Seq<Fd>, i: int, j: int)
    requires
        fd::first_free(t, j) == Some(i),
        0 <= j <= i < NFD,
        t.len() == NFD,
        u == t.update(i, u[i]),
        u[i].kind != fd::FD_FREE,
    ensures
        fd::first_free(u, j) == fd::first_free(u, i + 1),
    decreases i - j,
{
    if j < i {
        if t[j].kind != fd::FD_FREE {
            lemma_skips(t, u, i, j + 1);
        }
    }
}

proof fn lemma_later(t: Seq<Fd>, u: Seq<Fd>, i: int, j: int)
    requires
        0 <= i < j,
        t.len() == NFD,
        u == t.update(i, u[i]),
    ensures
        fd::first_free(u, j) == fd::first_free(t, j),
    decreases NFD - j,
{
    if j < NFD {
        lemma_later(t, u, i, j + 1);
    }
}

/// A pipe can be opened where two descriptors are free.
pub proof fn lemma_two_free(s: SchedV, k: FilesV, h: int, addr: u64)
    requires
        addr != 0,
        fd::table(s, h).len() == NFD,
    ensures
        file::pipe_call(s, k, h, addr).2 is Some == two_free(fd::table(s, h)),
{
    let t = fd::table(s, h);
    let (t1, r) = file::pipe_end(t, FD_PIPE_R, k.pipes.len() as int);
    fd::lemma_first_free(t, FIRST as int);
    fd::lemma_first_free(t1, FIRST as int);
    if let Some(i) = fd::first_free(t, FIRST as int) {
        assert(t1 =~= t.update(i, t1[i]));
        lemma_skips(t, t1, i, FIRST as int);
        lemma_later(t, t1, i, i + 1);
    }
}

/// Whether a pipe can be opened.
pub fn pipe_ready(s: &Sched, h: usize) -> (r: bool)
    requires
        h < MAX_HART,
        fd::busy(s@, h as int),
    ensures
        r == two_free(fd::table(s@, h as int)),
{
    match fd::find_free(s, h, FIRST) {
        Some(i) => fd::find_free(s, h, i + 1).is_some(),
        None => false,
    }
}

} // verus!
