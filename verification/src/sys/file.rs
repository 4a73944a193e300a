//! Calls on files, pipes and the console.
use crate::fs::disk;
use crate::fs::pipe;
use crate::fs::pipe::Pipes;
use crate::fs::ramfs;
use crate::fs::vfs;
use crate::fs::vfs::{Fs, FsV};
use crate::hw::uart;
use crate::hw::uart::{Uart, UartV};
use crate::sys::fd;
use crate::sys::fd::{FD_FILE, FD_OUT, FD_PIPE_R, FD_PIPE_W, FD_STDIN, FIRST};
use crate::task::life;
use crate::task::state::{Fd, Sched, SchedV, MAX_HART, NFD};
use vstd::prelude::*;

verus! {

/// Flags of an open.
pub const O_CREATE: i32 = 0x40;

pub const O_TRUNC: i32 = 0x200;

/// What descriptors lead to.
pub struct Files {
    pub fs: Fs,
    pub pipes: Pipes,
    /// Paths that were opened; a file's descriptor names its place here.
    pub reg: Vec<Vec<u8>>,
    pub uart: Uart,
}

#[verifier::ext_equal]
pub struct FilesV {
    pub fs: FsV,
    pub pipes: Seq<Seq<u8>>,
    pub reg: Seq<Seq<u8>>,
    pub uart: UartV,
}

impl Files {
    pub open spec fn wf(&self) -> bool {
        self.fs.wf() && self.pipes.wf() && self.uart.wf()
    }
}

impl View for Files {
    type V = FilesV;

    open spec fn view(&self) -> FilesV {
        FilesV {
            fs: self.fs@,
            pipes: self.pipes@,
            reg: disk::names_view(self.reg@),
            uart: self.uart@,
        }
    }
}

/// Files, no pipes, nothing opened, and a console.
pub fn new(fs: Fs) -> (k: Files)
    requires
        fs.wf(),
    ensures
        k.wf(),
        k@.fs == fs@,
        k@.pipes == Seq::<Seq<u8>>::empty(),
        k@.reg == Seq::<Seq<u8>>::empty(),
        k@.uart == (UartV { tx_on: false, tx: Seq::empty(), rx: Seq::empty(), eof: false }),
{
    let k = Files { fs, pipes: pipe::init(), reg: Vec::new(), uart: uart::init() };
    assert(k@.reg =~= Seq::empty());
    k
}

// ---- opened paths ----

/// The first place of a path from `i` on.
pub open spec fn place_of(reg: Seq<Seq<u8>>, path: Seq<u8>, i: int) -> Option<int>
    decreases reg.len() - i,
{
    if i >= reg.len() {
        None
    } else if reg[i] == path {
        Some(i)
    } else {
        place_of(reg, path, i + 1)
    }
}

/// The list with a path in it, and its place.
pub open spec fn registered(reg: Seq<Seq<u8>>, path: Seq<u8>) -> (Seq<Seq<u8>>, int) {
    match place_of(reg, path, 0) {
        Some(i) => (reg, i),
        None => (reg.push(path), reg.len() as int),
    }
}

/// The path at a place; the root where there is none.
pub open spec fn path_at(reg: Seq<Seq<u8>>, id: u64) -> Seq<u8> {
    if id < reg.len() {
        reg[id as int]
    } else {
        seq![0x2fu8]
    }
}

/// Place of a path, which is added if it is new.
pub fn register_path(k: &mut Files, path: &[u8]) -> (id: u64)
    requires
        old(k).wf(),
    ensures
        final(k).wf(),
        final(k)@ == (FilesV { reg: registered(old(k)@.reg, path@).0, ..old(k)@ }),
        id == registered(old(k)@.reg, path@).1,
{
    let mut i: usize = 0;
    while i < k.reg.len()
        invariant
            i <= k.reg@.len(),
            k.wf(),
            *k == *old(k),
            place_of(k@.reg, path@, 0) == place_of(k@.reg, path@, i as int),
        decreases k.reg@.len() - i,
    {
        assert(k@.reg[i as int] == k.reg@[i as int]@);
        if ramfs::same(&k.reg[i], path) {
            return i as u64;
        }
        i += 1;
    }
    k.reg.push(ramfs::to_vec(path));
    assert(k@.reg =~= old(k)@.reg.push(path@));
    i as u64
}

/// The path at a place.
pub fn fd_path_to_string(k: &Files, id: u64) -> (p: Vec<u8>)
    ensures
        p@ == path_at(k@.reg, id),
{
    if id < k.reg.len() as u64 {
        assert(k@.reg[id as int] == k.reg@[id as int]@);
        ramfs::to_vec(k.reg[id as usize].as_slice())
    } else {
        let mut p: Vec<u8> = Vec::new();
        p.push(0x2f);
        assert(p@ =~= seq![0x2fu8]);
        p
    }
}

// ---- reading ----

/// Bytes of a line from `i` on, `max` in all at most: through the next line
/// feed, or all there are.
pub open spec fn line_end(st: Seq<u8>, max: int, i: int) -> int
    decreases st.len() - i,
{
    if i >= max || i >= st.len() {
        i
    } else if st[i] == 0x0a {
        i + 1
    } else {
        line_end(st, max, i + 1)
    }
}

pub proof fn lemma_line_end(st: Seq<u8>, max: int, i: int)
    requires
        0 <= i <= st.len(),
        i <= max,
    ensures
        i <= line_end(st, max, i) <= st.len(),
        line_end(st, max, i) <= max,
    decreases st.len() - i,
{
    if i < max && i < st.len() && st[i] != 0x0a {
        lemma_line_end(st, max, i + 1);
    }
}

pub open spec fn low(a: int, b: int) -> int {
    if a <= b {
        a
    } else {
        b
    }
}

/// The start of a buffer replaced.
pub open spec fn filled(buf: Seq<u8>, v: Seq<u8>) -> Seq<u8> {
    v + buf.skip(v.len() as int)
}

/// Input up to the end of a line: bytes received first, then those the chip
/// still holds. Returns how many bytes, and how many of the chip's.
pub fn read_line(u: &mut Uart, held: &[u8], buf: &mut [u8]) -> (r: (usize, usize))
    requires
        old(u).wf(),
    ensures
        final(u).wf(),
        ({
            let st = old(u)@.rx + held@;
            let n = line_end(st, old(buf)@.len() as int, 0);
            let m = low(n, old(u)@.rx.len() as int);
            &&& r.0 == n
            &&& r.1 == n - m
            &&& final(buf)@ == filled(old(buf)@, st.take(n))
            &&& final(u)@ == (UartV { rx: old(u)@.rx.skip(m), ..old(u)@ })
        }),
        final(buf)@.len() == old(buf)@.len(),
{
    let len: usize = buf.len();
    let ghost b0 = buf@;
    let ghost rx0 = u@.rx;
    let ghost st = rx0 + held@;
    let mut n: usize = 0;
    let mut used: usize = 0;
    let mut done = false;
    assert(buf@ =~= filled(b0, st.take(0)));
    assert(u@ =~= (UartV { rx: rx0.skip(0), ..old(u)@ }));
    while !done && n < len
        invariant
            u.wf(),
            len == b0.len(),
            buf@.len() == len,
            n <= len,
            n <= st.len(),
            st == rx0 + held@,
            rx0 == old(u)@.rx,
            used == n - low(n as int, rx0.len() as int),
            used <= held@.len(),
            u@ == (UartV { rx: rx0.skip(low(n as int, rx0.len() as int)), ..old(u)@ }),
            buf@ == filled(b0, st.take(n as int)),
            !done ==> line_end(st, len as int, 0) == line_end(st, len as int, n as int),
            done ==> line_end(st, len as int, 0) == n,
        decreases len - n,
            (if done {
                0int
            } else {
                1int
            }),
    {
        let direct: Option<u8> = if used < held.len() {
            Some(held[used])
        } else {
            None
        };
        let from_ring = u.rx_n > 0;
        match uart::getchar(u, direct) {
            Some(c) => {
                assert(c == st[n as int]);
                buf[n] = c;
                n += 1;
                if !from_ring {
                    used += 1;
                }
                if c == 0x0a {
                    done = true;
                }
                proof {
                    assert(buf@ =~= filled(b0, st.take(n as int)));
                    assert(u@.rx =~= rx0.skip(low(n as int, rx0.len() as int)));
                    assert(u@ =~= (UartV {
                        rx: rx0.skip(low(n as int, rx0.len() as int)),
                        ..old(u)@
                    }));
                }
            },
            None => {
                done = true;
            },
        }
    }
    (n, used)
}

/// Outcome of a read.
#[verifier::ext_equal]
pub struct ReadV {
    pub s: SchedV,
    pub k: FilesV,
    pub buf: Seq<u8>,
    /// Bytes read, and how many of those the chip held.
    pub n: int,
    pub used: int,
}

pub open spec fn yielding(s: SchedV, h: int) -> SchedV {
    SchedV { yield_flag: s.yield_flag.update(h, true), ..s }
}

/// A descriptor moved on by `n` bytes.
pub open spec fn moved(s: SchedV, h: int, i: i32, n: int) -> SchedV {
    let t = fd::table(s, h);
    let f = t[i as int];
    fd::with_table(s, h, t.update(i as int, Fd { off: (f.off + n) as u64, ..f }))
}

pub open spec fn read_call(s: SchedV, k: FilesV, h: int, i: i32, held: Seq<u8>, buf: Seq<u8>) -> ReadV {
    let same = ReadV { s, k, buf, n: 0, used: 0 };
    if buf.len() == 0 || !fd::named(i) {
        same
    } else {
        let f = fd::table(s, h)[i as int];
        if f.kind == FD_STDIN {
            let st = k.uart.rx + held;
            let n = line_end(st, buf.len() as int, 0);
            let m = low(n, k.uart.rx.len() as int);
            ReadV {
                s: if n == 0 {
                    yielding(s, h)
                } else {
                    s
                },
                k: FilesV { uart: UartV { rx: k.uart.rx.skip(m), ..k.uart }, ..k },
                buf: filled(buf, st.take(n)),
                n,
                used: n - m,
            }
        } else if f.kind == FD_FILE {
            let (n, b) = k.fs.read(path_at(k.reg, f.path), f.off as int, buf);
            ReadV { s: moved(s, h, i, n), k, buf: b, n, used: 0 }
        } else if f.kind == FD_PIPE_R && f.path < k.pipes.len() {
            let c = k.pipes[f.path as int];
            let n = pipe::fit(c.len(), buf.len() as int);
            ReadV {
                s,
                k: FilesV { pipes: k.pipes.update(f.path as int, c.skip(n)), ..k },
                buf: filled(buf, c.take(n)),
                n,
                used: 0,
            }
        } else {
            same
        }
    }
}

pub proof fn lemma_readable(d: crate::fs::dev::DevV, r: disk::InoV, off: int, n: int)
    requires
        0 <= n,
        0 <= off,
    ensures
        0 <= disk::readable(d, r, off, n) <= n,
        disk::readable(d, r, off, n) > 0 ==> off + disk::readable(d, r, off, n) <= r.size,
        off >= r.size ==> disk::readable(d, r, off, n) == 0,
    decreases n,
{
    if n > 0 && off < r.size && disk::has_byte(d, r, off) {
        lemma_readable(d, r, off + 1, n - 1);
    }
}

/// What a read of a file gives stays within the file.
pub proof fn lemma_read_within(f: FsV, path: Seq<u8>, off: int, buf: Seq<u8>)
    requires
        0 <= off,
        f.ram.file(path) matches Some(v) ==> v.len() <= usize::MAX,
    ensures
        0 <= f.read(path, off, buf).0 <= buf.len(),
        off <= u64::MAX ==> off + f.read(path, off, buf).0 <= u64::MAX,
        off > usize::MAX ==> f.read(path, off, buf) == (0int, buf),
{
    if f.on_disk {
        if let Some((i, r)) = disk::file_at(f.d, f.g, path) {
            lemma_readable(f.d, r, off, buf.len() as int);
        }
    }
    if off > usize::MAX {
        assert(f.read(path, off, buf).1 =~= buf);
    }
}

pub proof fn lemma_ram_bound(f: &Fs, path: Seq<u8>)
    ensures
        f@.ram.file(path) matches Some(v) ==> v.len() <= usize::MAX,
{
    ramfs::lemma_file_bound(&f.ram, path);
}

/// Reads from a descriptor. At the console this takes a line, or what there
/// is of it, and the process gives way when there is nothing. Returns how
/// many bytes, and how many of those the chip held.
pub fn sys_read(s: &mut Sched, k: &mut Files, h: usize, i: i32, held: &[u8], buf: &mut [u8]) -> (r: (
    usize,
    usize,
))
    requires
        h < MAX_HART,
        fd::busy(old(s)@, h as int),
        old(k).wf(),
    ensures
        final(k).wf(),
        (ReadV { s: final(s)@, k: final(k)@, buf: final(buf)@, n: r.0 as int, used: r.1 as int })
            == read_call(old(s)@, old(k)@, h as int, i, held@, old(buf)@),
        final(buf)@.len() == old(buf)@.len(),
{
    if buf.len() == 0 {
        return (0, 0);
    }
    let f = match fd::get(s, h, i) {
        Some(f) => f,
        None => {
            return (0, 0);
        },
    };
    let ghost b0 = buf@;
    if f.kind == FD_STDIN {
        let (n, used) = read_line(&mut k.uart, held, buf);
        if n == 0 {
            life::yield_now(s, h);
        }
        assert(k@ =~= read_call(old(s)@, old(k)@, h as int, i, held@, b0).k);
        (n, used)
    } else if f.kind == FD_FILE {
        let path = fd_path_to_string(k, f.path);
        proof {
            lemma_ram_bound(&k.fs, path@);
            lemma_read_within(k@.fs, path@, f.off as int, b0);
        }
        let n: usize = if f.off > usize::MAX as u64 {
            0
        } else {
            vfs::read_at(&mut k.fs, path.as_slice(), f.off as usize, buf)
        };
        fd::set(s, h, i as usize, Fd { off: f.off + n as u64, ..f });
        assert(k@ =~= old(k)@);
        (n, 0)
    } else if f.kind == FD_PIPE_R {
        let np: usize = k.pipes.v.len();
        if f.path >= np as u64 {
            return (0, 0);
        }
        let n = pipe::read(&mut k.pipes, f.path as usize, buf);
        assert(k@ =~= read_call(old(s)@, old(k)@, h as int, i, held@, b0).k);
        (n, 0)
    } else {
        (0, 0)
    }
}

// ---- writing ----

/// Outcome of a write.
#[verifier::ext_equal]
pub struct WriteV {
    pub s: SchedV,
    pub k: FilesV,
    pub n: int,
    /// The bytes go to the console.
    pub console: bool,
}

pub open spec fn write_call(s: SchedV, k: FilesV, h: int, i: i32, src: Seq<u8>) -> WriteV {
    let same = WriteV { s, k, n: 0, console: false };
    if src.len() == 0 || !fd::named(i) {
        same
    } else {
        let f = fd::table(s, h)[i as int];
        if f.kind == FD_OUT {
            WriteV { s, k, n: src.len() as int, console: true }
        } else if f.kind == FD_FILE {
            let (fs, n) = k.fs.put(path_at(k.reg, f.path), f.off as int, src);
            WriteV { s: moved(s, h, i, n), k: FilesV { fs, ..k }, n, console: false }
        } else if f.kind == FD_PIPE_W && f.path < k.pipes.len() {
            let c = k.pipes[f.path as int];
            let n = pipe::fit(src.len(), pipe::CAP - c.len());
            WriteV {
                s,
                k: FilesV { pipes: k.pipes.update(f.path as int, c + src.take(n)), ..k },
                n,
                console: false,
            }
        } else {
            same
        }
    }
}

/// Writes to a descriptor. Returns how many bytes, and whether they go to the
/// console.
pub fn sys_write(s: &mut Sched, k: &mut Files, h: usize, i: i32, src: &[u8]) -> (r: (usize, bool))
    requires
        h < MAX_HART,
        fd::busy(old(s)@, h as int),
        old(k).wf(),
        fd::fd_at(old(s)@, h as int, i) matches Some(f) ==> f.off + src@.len() <= usize::MAX,
    ensures
        final(k).wf(),
        (WriteV { s: final(s)@, k: final(k)@, n: r.0 as int, console: r.1 }) == write_call(
            old(s)@,
            old(k)@,
            h as int,
            i,
            src@,
        ),
        r.0 <= src@.len(),
{
    let len: usize = src.len();
    if len == 0 {
        return (0, false);
    }
    let f = match fd::get(s, h, i) {
        Some(f) => f,
        None => {
            return (0, false);
        },
    };
    if f.kind == FD_OUT {
        (len, true)
    } else if f.kind == FD_FILE {
        let path = fd_path_to_string(k, f.path);
        let n = vfs::write_at(&mut k.fs, path.as_slice(), f.off as usize, src);
        proof {
            vfs::lemma_put_count(old(k)@.fs, path@, f.off as int, src@);
        }
        fd::set(s, h, i as usize, Fd { off: f.off + n as u64, ..f });
        assert(k@ =~= write_call(old(s)@, old(k)@, h as int, i, src@).k);
        (n, false)
    } else if f.kind == FD_PIPE_W {
        let np: usize = k.pipes.v.len();
        if f.path >= np as u64 {
            return (0, false);
        }
        let n = pipe::write(&mut k.pipes, f.path as usize, src);
        assert(k@ =~= write_call(old(s)@, old(k)@, h as int, i, src@).k);
        (n, false)
    } else {
        (0, false)
    }
}

// ---- opening ----

/// The files after an open found or made the path; None if it fails.
pub open spec fn ready_to_open(k: FilesV, path: Seq<u8>, flags: i32) -> Option<FilesV> {
    if k.fs.whole(path) is None {
        if flags & O_CREATE != 0 {
            Some(FilesV { fs: k.fs.written(path, Seq::empty()), ..k })
        } else {
            None
        }
    } else if flags & O_TRUNC != 0 {
        Some(FilesV { fs: k.fs.cut(path).0, ..k })
    } else {
        Some(k)
    }
}

pub open spec fn open_call(s: SchedV, k: FilesV, h: int, path: Option<Seq<u8>>, flags: i32) -> (
    SchedV,
    FilesV,
    int,
) {
    match path {
        None => (s, k, -1),
        Some(p) => match ready_to_open(k, p, flags) {
            None => (s, k, -1),
            Some(k2) => {
                let t = fd::table(s, h);
                match fd::first_free(t, FIRST as int) {
                    None => (s, k2, -1),
                    Some(i) => {
                        let (reg, id) = registered(k2.reg, p);
                        (
                            fd::with_table(
                                s,
                                h,
                                t.update(
                                    i,
                                    Fd {
                                        kind: FD_FILE,
                                        off: 0,
                                        path: id as u64,
                                        id: i as i32,
                                        ..t[i]
                                    },
                                ),
                            ),
                            FilesV { reg, ..k2 },
                            i,
                        )
                    },
                }
            },
        },
    }
}

/// Opens a file at the first free descriptor. -1 where there is no path, no
/// file and none is to be made, or no descriptor; a file may have been made
/// or cut then.
pub fn sys_open(s: &mut Sched, k: &mut Files, h: usize, path: Option<&[u8]>, flags: i32) -> (r: i64)
    requires
        h < MAX_HART,
        fd::busy(old(s)@, h as int),
        old(k).wf(),
    ensures
        final(k).wf(),
        (final(s)@, final(k)@, r as int) == open_call(
            old(s)@,
            old(k)@,
            h as int,
            (match path {
                Some(p) => Some(p@),
                None => None,
            }),
            flags,
        ),
{
    let p = match path {
        Some(p) => p,
        None => {
            return -1;
        },
    };
    if vfs::read_file(&mut k.fs, p).is_none() {
        if flags & O_CREATE != 0 {
            let nothing: [u8; 0] = [];
            vfs::write_file(&mut k.fs, p, nothing.as_slice());
            assert(nothing@ =~= Seq::empty());
            assert(k@ =~= (FilesV { fs: old(k)@.fs.written(p@, Seq::empty()), ..old(k)@ }));
        } else {
            assert(k@ =~= old(k)@);
            return -1;
        }
    } else if flags & O_TRUNC != 0 {
        let _ = vfs::truncate(&mut k.fs, p);
        assert(k@ =~= (FilesV { fs: old(k)@.fs.cut(p@).0, ..old(k)@ }));
    } else {
        assert(k@ =~= old(k)@);
    }
    assert(ready_to_open(old(k)@, p@, flags) == Some(k@));
    match fd::find_free(s, h, FIRST) {
        Some(i) => {
            let id = register_path(k, p);
            match fd::get(s, h, i as i32) {
                Some(e) => {
                    fd::set(s, h, i, Fd { kind: FD_FILE, off: 0, path: id, id: i as i32, ..e });
                    i as i64
                },
                None => -1,
            }
        },
        None => -1,
    }
}

// ---- pipes ----

pub open spec fn pipe_end(t: Seq<Fd>, kind: u8, id: int) -> (Seq<Fd>, int) {
    match fd::first_free(t, FIRST as int) {
        Some(i) => (t.update(i, Fd { kind, path: id as u64, id: i as i32, ..t[i] }), i),
        None => (t, -1),
    }
}

pub open spec fn pipe_call(s: SchedV, k: FilesV, h: int, addr: u64) -> (SchedV, FilesV, Option<(int, int)>) {
    if addr == 0 {
        (s, k, None)
    } else {
        let id = k.pipes.len() as int;
        let (t1, r) = pipe_end(fd::table(s, h), FD_PIPE_R, id);
        let (t2, w) = pipe_end(t1, FD_PIPE_W, id);
        (
            fd::with_table(s, h, t2),
            FilesV { pipes: k.pipes.push(Seq::empty()), ..k },
            if r < 0 || w < 0 {
                None
            } else {
                Some((r, w))
            },
        )
    }
}

fn open_end(s: &mut Sched, h: usize, kind: u8, id: usize) -> (r: i64)
    requires
        h < MAX_HART,
        fd::busy(old(s)@, h as int),
    ensures
        fd::busy(final(s)@, h as int),
        final(s)@.current == old(s)@.current,
        final(s)@ == fd::with_table(
            old(s)@,
            h as int,
            pipe_end(fd::table(old(s)@, h as int), kind, id as int).0,
        ),
        fd::table(final(s)@, h as int) == pipe_end(fd::table(old(s)@, h as int), kind, id as int).0,
        r == pipe_end(fd::table(old(s)@, h as int), kind, id as int).1,
        -1 <= r < NFD,
{
    match fd::find_free(s, h, FIRST) {
        Some(i) => {
            match fd::get(s, h, i as i32) {
                Some(e) => {
                    fd::set(s, h, i, Fd { kind, path: id as u64, id: i as i32, ..e });
                    i as i64
                },
                None => -1,
            }
        },
        None => {
            assert(s@ =~= fd::with_table(s@, h as int, fd::table(s@, h as int)));
            -1
        },
    }
}

/// Makes a pipe with a descriptor for each end; None where there is no place
/// to report them or a descriptor is missing, in which case the pipe and the
/// other end stay.
pub fn sys_pipe(s: &mut Sched, k: &mut Files, h: usize, addr: u64) -> (r: Option<(i32, i32)>)
    requires
        h < MAX_HART,
        fd::busy(old(s)@, h as int),
        old(k).wf(),
    ensures
        final(k).wf(),
        ({
            let (s2, k2, o) = pipe_call(old(s)@, old(k)@, h as int, addr);
            &&& final(s)@ == s2
            &&& final(k)@ == k2
            &&& match r {
                Some((a, b)) => o == Some((a as int, b as int)),
                None => o is None,
            }
        }),
{
    if addr == 0 {
        return None;
    }
    let (id, _) = pipe::create(&mut k.pipes);
    let rfd = open_end(s, h, FD_PIPE_R, id);
    let ghost s1 = s@;
    let wfd = open_end(s, h, FD_PIPE_W, id);
    proof {
        let (s2, k2, o) = pipe_call(old(s)@, old(k)@, h as int, addr);
        fd::lemma_table_twice(
            old(s)@,
            h as int,
            fd::table(s1, h as int),
            fd::table(s@, h as int),
        );
        assert(s@ == s2);
        assert(k@ =~= k2);
    }
    if rfd < 0 || wfd < 0 {
        return None;
    }
    Some((rfd as i32, wfd as i32))
}

// ---- status and names ----

pub open spec fn fstat_call(s: SchedV, k: FilesV, h: int, i: i32, out: u64) -> Option<(u32, u32, u32)> {
    if out == 0 || !fd::named(i) {
        None
    } else {
        let f = fd::table(s, h)[i as int];
        if f.kind == FD_STDIN {
            Some((1, 0, 1))
        } else if f.kind == FD_OUT {
            Some((2, 0, 1))
        } else if f.kind == FD_FILE {
            let (dk, ds, dn) = k.fs.status(path_at(k.reg, f.path));
            Some(
                (
                    if dk == 2 {
                        2
                    } else {
                        4
                    },
                    ds,
                    dn,
                ),
            )
        } else if f.kind == FD_PIPE_R || f.kind == FD_PIPE_W {
            Some((f.kind as u32, 0, 1))
        } else {
            None
        }
    }
}

/// Kind (1 input, 2 output or a directory, 4 a file, 5 and 6 the ends of a
/// pipe), size and number of names of what a descriptor leads to.
pub fn sys_fstat(s: &Sched, k: &mut Files, h: usize, i: i32, out: u64) -> (r: Option<(u32, u32, u32)>)
    requires
        h < MAX_HART,
        fd::busy(s@, h as int),
        old(k).wf(),
    ensures
        final(k).wf(),
        final(k)@ == old(k)@,
        r == fstat_call(s@, old(k)@, h as int, i, out),
{
    if out == 0 {
        return None;
    }
    let f = match fd::get(s, h, i) {
        Some(f) => f,
        None => {
            return None;
        },
    };
    if f.kind == FD_STDIN {
        Some((1, 0, 1))
    } else if f.kind == FD_OUT {
        Some((2, 0, 1))
    } else if f.kind == FD_FILE {
        let path = fd_path_to_string(k, f.path);
        let (dk, ds, dn) = vfs::stat(&mut k.fs, path.as_slice());
        assert(k@ =~= old(k)@);
        Some(
            (
                if dk == 2 {
                    2
                } else {
                    4
                },
                ds,
                dn,
            ),
        )
    } else if f.kind == FD_PIPE_R || f.kind == FD_PIPE_W {
        Some((f.kind as u32, 0, 1))
    } else {
        None
    }
}

/// Makes a directory: 0, or -1 where it fails or there is no path.
pub fn sys_mkdir(k: &mut Files, path: Option<&[u8]>) -> (r: i64)
    requires
        old(k).wf(),
    ensures
        final(k).wf(),
        match path {
            Some(p) => {
                let (fs, ok) = old(k)@.fs.with_dir(p@);
                final(k)@ == (FilesV { fs, ..old(k)@ }) && r == if ok {
                    0int
                } else {
                    -1
                }
            },
            None => r == -1 && final(k)@ == old(k)@,
        },
{
    match path {
        Some(p) => {
            let ok = vfs::mkdir(&mut k.fs, p);
            assert(k@ =~= (FilesV { fs: old(k)@.fs.with_dir(p@).0, ..old(k)@ }));
            if ok {
                0
            } else {
                -1
            }
        },
        None => -1,
    }
}

/// Removes a name: 0, or -1 where it fails or there is no path.
pub fn sys_unlink(k: &mut Files, path: Option<&[u8]>) -> (r: i64)
    requires
        old(k).wf(),
    ensures
        final(k).wf(),
        match path {
            Some(p) => {
                let (fs, ok) = old(k)@.fs.without(p@);
                final(k)@ == (FilesV { fs, ..old(k)@ }) && r == if ok {
                    0int
                } else {
                    -1
                }
            },
            None => r == -1 && final(k)@ == old(k)@,
        },
{
    match path {
        Some(p) => {
            let ok = vfs::unlink(&mut k.fs, p);
            assert(k@ =~= (FilesV { fs: old(k)@.fs.without(p@).0, ..old(k)@ }));
            if ok {
                0
            } else {
                -1
            }
        },
        None => -1,
    }
}

/// A second name for a file: 0, or -1 where it fails or a path is missing.
pub fn sys_link(k: &mut Files, from: Option<&[u8]>, to: Option<&[u8]>) -> (r: i64)
    requires
        old(k).wf(),
    ensures
        final(k).wf(),
        match (from, to) {
            (Some(a), Some(b)) => {
                let (fs, ok) = old(k)@.fs.linked(a@, b@);
                final(k)@ == (FilesV { fs, ..old(k)@ }) && r == if ok {
                    0int
                } else {
                    -1
                }
            },
            _ => r == -1 && final(k)@ == old(k)@,
        },
{
    let a = match from {
        Some(a) => a,
        None => {
            return -1;
        },
    };
    let b = match to {
        Some(b) => b,
        None => {
            return -1;
        },
    };
    let ok = vfs::link(&mut k.fs, a, b);
    assert(k@ =~= (FilesV { fs: old(k)@.fs.linked(a@, b@).0, ..old(k)@ }));
    if ok {
        0
    } else {
        -1
    }
}

// ---- directories ----

/// Names from `i` on that fit into `room` bytes, each with a zero at its end;
/// the first that does not fit ends them. Their number, and the bytes.
pub open spec fn packed(names: Seq<Seq<u8>>, i: int, room: int) -> (int, Seq<u8>)
    decreases names.len() - i,
{
    if i >= names.len() || names[i].len() + 1 > room {
        (0, Seq::empty())
    } else {
        let (c, b) = packed(names, i + 1, room - names[i].len() - 1);
        (c + 1, names[i].push(0) + b)
    }
}

/// Names that fit into `room` bytes: their number, and the bytes.
pub fn pack(names: &Vec<Vec<u8>>, room: u64) -> (r: (usize, Vec<u8>))
    ensures
        (r.0 as int, r.1@) == packed(disk::names_view(names@), 0, room as int),
        r.1@.len() <= room,
{
    let ghost nv = disk::names_view(names@);
    let ghost all = packed(nv, 0, room as int);
    let mut out: Vec<u8> = Vec::new();
    let mut left: u64 = room;
    let mut i: usize = 0;
    let mut full = false;
    assert(out@ + all.1 =~= all.1);
    while i < names.len() && !full
        invariant
            nv == disk::names_view(names@),
            i <= names@.len(),
            left <= room,
            out@.len() == room - left,
            all == packed(nv, 0, room as int),
            !full ==> all.0 == i + packed(nv, i as int, left as int).0,
            !full ==> all.1 == out@ + packed(nv, i as int, left as int).1,
            full ==> all == (i as int, out@),
        decreases names@.len() - i,
            (if full {
                0int
            } else {
                1int
            }),
    {
        let n: usize = names[i].len();
        assert(nv[i as int] == names@[i as int]@);
        if n as u64 >= left {
            assert(out@ + Seq::<u8>::empty() =~= out@);
            full = true;
        } else {
            let ghost before = out@;
            let mut j: usize = 0;
            while j < n
                invariant
                    i < names@.len(),
                    n == names@[i as int]@.len(),
                    j <= n,
                    out@ == before + names@[i as int]@.take(j as int),
                decreases n - j,
            {
                out.push(names[i][j]);
                j += 1;
                assert(out@ =~= before + names@[i as int]@.take(j as int));
            }
            out.push(0);
            proof {
                let rest = packed(nv, i + 1, left - n - 1).1;
                assert(out@ =~= before + nv[i as int].push(0));
                assert(before + (nv[i as int].push(0) + rest) =~= out@ + rest);
            }
            left = left - n as u64 - 1;
            i += 1;
        }
    }
    assert(out@ + Seq::<u8>::empty() =~= out@);
    (i, out)
}

/// Lists a directory into a buffer; returns how many names. None without a
/// path.
pub fn sys_getdents(k: &mut Files, path: Option<&[u8]>, buf: &mut [u8]) -> (r: Option<usize>)
    requires
        old(k).wf(),
    ensures
        final(k).wf(),
        final(k)@ == old(k)@,
        final(buf)@.len() == old(buf)@.len(),
        match path {
            Some(p) => {
                let (c, b) = packed(old(k)@.fs.names(p@), 0, old(buf)@.len() as int);
                r is Some && r->0 == c && final(buf)@ == filled(old(buf)@, b)
            },
            None => r is None && final(buf)@ == old(buf)@,
        },
{
    let p = match path {
        Some(p) => p,
        None => {
            return None;
        },
    };
    let names = vfs::list_dir(&mut k.fs, p);
    assert(k@ =~= old(k)@);
    let (c, d) = pack(&names, buf.len() as u64);
    let ghost b0 = buf@;
    let mut j: usize = 0;
    assert(buf@ =~= filled(b0, d@.take(0)));
    while j < d.len()
        invariant
            j <= d@.len() <= b0.len(),
            buf@.len() == b0.len(),
            buf@ == filled(b0, d@.take(j as int)),
        decreases d@.len() - j,
    {
        buf[j] = d[j];
        j += 1;
        assert(buf@ =~= filled(b0, d@.take(j as int)));
    }
    assert(d@.take(j as int) =~= d@);
    Some(c)
}

// ---- laws ----

/// A path keeps its place, and its place leads back to it.
pub proof fn law_registered_path_returns(reg: Seq<Seq<u8>>, path: Seq<u8>, other: int)
    requires
        reg.len() < u64::MAX,
        0 <= other < reg.len(),
    ensures
        path_at(registered(reg, path).0, registered(reg, path).1 as u64) == path,
        registered(reg, path).0[other] == reg[other],
        registered(registered(reg, path).0, path) == registered(reg, path),
{
    lemma_place(reg, path, 0);
    let r2 = registered(reg, path).0;
    lemma_place(r2, path, 0);
}

pub proof fn lemma_place(reg: Seq<Seq<u8>>, path: Seq<u8>, i: int)
    requires
        0 <= i <= reg.len(),
    ensures
        match place_of(reg, path, i) {
            Some(k) => i <= k < reg.len() && reg[k] == path && forall|j: int|
                i <= j < k ==> #[trigger] reg[j] != path,
            None => forall|j: int| i <= j < reg.len() ==> #[trigger] reg[j] != path,
        },
    decreases reg.len() - i,
{
    if i < reg.len() && reg[i] != path {
        lemma_place(reg, path, i + 1);
    }
}

/// No more names are packed than there is room for zeros.
pub proof fn lemma_packed_count(names: Seq<Seq<u8>>, i: int, room: int)
    requires
        0 <= room,
    ensures
        0 <= packed(names, i, room).0 <= packed(names, i, room).1.len() <= room,
    decreases names.len() - i,
{
    if !(i >= names.len() || names[i].len() + 1 > room) {
        lemma_packed_count(names, i + 1, room - names[i].len() - 1);
    }
}

} // verus!
