//! What the calls do, told of the functions that serve them.
use crate::fs::dev;
use crate::fs::disk;
use crate::fs::names;
use crate::fs::sound;
use crate::fs::tree;
use crate::fs::vfs::{Fs, FsV};
use crate::mem::frame;
use crate::mem::frame::{Mem, MemV, WORDS};
use crate::mem::space;
use crate::mem::space::VA_END;
use crate::sys::ask;
use crate::sys::fd;
use crate::sys::file;
use crate::sys::file::Files;
use crate::sys::follow;
use crate::sys::proc as calls;
use crate::sys::serve;
use crate::sys::serve::{Kernel, KernelV, Reply, ReplyV};
use crate::sys::text;
use crate::task::args;
use crate::task::begin;
use crate::task::family;
use crate::task::state::{Fd, Sched, SchedV, NFD};
use crate::task::wait;
use vstd::prelude::*;

verus! {

// ---- files ----

/// An open that truncates leaves an empty file of that path and every other as
/// it was; one that does not leaves all. The descriptor is the lowest free.
pub proof fn law_open(
    s: &mut Sched,
    k: &mut Files,
    h: usize,
    path: &[u8],
    flags: i32,
    r: i64,
    other: Seq<u8>,
)
    requires
        follow::calls(old(s)@, h as int),
        !old(k)@.fs.on_disk,
        old(k)@.reg.len() < u64::MAX,
        call_ensures(file::sys_open, (s, k, h, Some(path), flags), r),
    ensures
        ({
            let a = old(k)@.fs.ram;
            let b = final(k)@.fs.ram;
            let free = exists|j: int| 3 <= j < NFD && (#[trigger] follow::fds(old(s)@, h as int)[j]).kind == 0;
            &&& r >= 0 <==> free && (a.file(path@) is Some || flags & 0x40 != 0)
            &&& r >= 0 && flags & 0x200 != 0 ==> b.file(path@) == Some(Seq::<u8>::empty())
            &&& a.file(path@) is Some && flags & 0x200 == 0 ==> b == a
            &&& a.file(path@) is None && flags & 0x40 != 0 ==> b.file(path@) == Some(Seq::<u8>::empty())
            &&& a.file(path@) is None && flags & 0x40 == 0 ==> b == a
            &&& r >= 0 && other != path@ ==> b.file(other) == a.file(other)
            &&& r >= 0 ==> {
                &&& 3 <= r < NFD
                &&& forall|j: int| 3 <= j < r ==> (#[trigger] follow::fds(old(s)@, h as int)[j]).kind != 0
                &&& follow::only_fd(old(s)@, final(s)@, h as int, r as int)
                &&& follow::fds(final(s)@, h as int)[r as int].kind == 4
                &&& follow::fds(final(s)@, h as int)[r as int].off == 0
                &&& final(k)@.reg[follow::fds(final(s)@, h as int)[r as int].path as int] == path@
            }
            &&& r < 0 ==> final(s)@ == old(s)@
        }),
{
    let a = old(k)@;
    follow::law_open_gives_a_descriptor(old(s)@, a, h as int, path@, flags);
    if r >= 0 && flags & 0x200 != 0 {
        follow::law_open_truncates_in_memory(old(s)@, a, h as int, path@, flags, other);
    }
    if follow::there(a.fs, path@) && flags & 0x200 == 0 {
        follow::law_open_keeps_bytes(old(s)@, a, h as int, path@, flags);
    }
    if !follow::there(a.fs, path@) && flags & 0x40 == 0 {
        follow::law_open_needs_a_file(old(s)@, a, h as int, path@, flags);
    }
    if a.fs.ram.file(path@) is None && flags & 0x40 != 0 {
        follow::law_open_makes_in_memory(old(s)@, a, h as int, path@, flags, other);
    }
}

/// On the disk too: an open that truncates leaves the file there with no bytes,
/// and every other file as it was; one that does not leaves all.
pub proof fn law_open_on_disk(s: &mut Sched, k: &mut Files, h: usize, path: &[u8], flags: i32, r: i64)
    requires
        old(k)@.fs.on_disk,
        names::orderly(old(k)@.fs.d, old(k)@.fs.g),
        disk::file_at(old(k)@.fs.d, old(k)@.fs.g, path@) is Some,
        disk::complete(old(k)@.fs.d, (disk::file_at(old(k)@.fs.d, old(k)@.fs.g, path@)->0).1),
        call_ensures(file::sys_open, (s, k, h, Some(path), flags), r),
    ensures
        ({
            let a = old(k)@.fs;
            let b = final(k)@.fs;
            let i = (disk::file_at(a.d, a.g, path@)->0).0;
            &&& flags & 0x200 == 0 ==> b == a
            &&& flags & 0x200 != 0 ==> b == (FsV { d: b.d, ..a }) && disk::file_at(b.d, b.g, path@) is Some && (
            disk::file_at(b.d, b.g, path@)->0).0 == i && (disk::file_at(b.d, b.g, path@)->0).1.size == 0 && b.whole(
                path@,
            ) == Some(Seq::<u8>::empty()) && sound::apart_from(a.d, b.d, a.g, i)
        }),
{
    if flags & 0x200 != 0 {
        follow::law_open_truncates_on_disk(old(s)@, old(k)@, h as int, path@, flags);
    } else {
        follow::law_open_keeps_bytes(old(s)@, old(k)@, h as int, path@, flags);
    }
}

/// What is written to a file in memory stands in it at the descriptor's offset.
pub proof fn law_write(s: &mut Sched, k: &mut Files, h: usize, i: i32, src: &[u8], r: (usize, bool), other: Seq<u8>)
    requires
        follow::calls(old(s)@, h as int),
        !old(k)@.fs.on_disk,
        0 <= i < NFD,
        src@.len() > 0,
        ({
            let f = follow::fds(old(s)@, h as int)[i as int];
            &&& f.kind == 4
            &&& f.path < old(k)@.reg.len()
            &&& f.off + src@.len() <= usize::MAX
            &&& old(k)@.fs.ram.file(old(k)@.reg[f.path as int]) is Some
        }),
        call_ensures(file::sys_write, (s, k, h, i, src), r),
    ensures
        ({
            let f = follow::fds(old(s)@, h as int)[i as int];
            let path = old(k)@.reg[f.path as int];
            let a = old(k)@.fs.ram.file(path)->0;
            let b = final(k)@.fs.ram.file(path)->0;
            &&& r == (src@.len() as usize, false)
            &&& final(k)@.fs.ram.file(path) is Some
            &&& b.len() == if f.off + src@.len() > a.len() { f.off + src@.len() } else { a.len() as int }
            &&& b.subrange(f.off as int, f.off + src@.len()) == src@
            &&& forall|x: int|
                0 <= x < b.len() && !(f.off <= x < f.off + src@.len()) ==> #[trigger] b[x] == if x < a.len() {
                    a[x]
                } else {
                    0u8
                }
            &&& other != path ==> final(k)@.fs.ram.file(other) == old(k)@.fs.ram.file(other)
            &&& follow::only_fd(old(s)@, final(s)@, h as int, i as int)
            &&& follow::fds(final(s)@, h as int)[i as int] == (Fd { off: (f.off + src@.len()) as u64, ..f })
        }),
{
    follow::law_write_in_memory(old(s)@, old(k)@, h as int, i, src@, other);
}

/// What is read of a file in memory are its bytes from the descriptor's offset
/// on, as many as there are or the buffer holds.
pub proof fn law_read(
    s: &mut Sched,
    k: &mut Files,
    h: usize,
    i: i32,
    held: &[u8],
    buf: &mut [u8],
    r: (usize, usize),
)
    requires
        follow::calls(old(s)@, h as int),
        !old(k)@.fs.on_disk,
        0 <= i < NFD,
        old(buf)@.len() > 0,
        ({
            let f = follow::fds(old(s)@, h as int)[i as int];
            &&& f.kind == 4
            &&& f.path < old(k)@.reg.len()
            &&& f.off + old(buf)@.len() <= u64::MAX
            &&& old(k)@.fs.ram.file(old(k)@.reg[f.path as int]) is Some
        }),
        call_ensures(file::sys_read, (s, k, h, i, held, buf), r),
    ensures
        ({
            let f = follow::fds(old(s)@, h as int)[i as int];
            let a = old(k)@.fs.ram.file(old(k)@.reg[f.path as int])->0;
            let n = r.0 as int;
            &&& n <= old(buf)@.len()
            &&& f.off <= a.len() ==> f.off + n <= a.len() && final(buf)@.take(n) == a.subrange(f.off as int, f.off + n)
            &&& f.off <= a.len() ==> n == old(buf)@.len() || f.off + n == a.len()
            &&& f.off > a.len() ==> n == 0
            &&& final(buf)@.skip(n) == old(buf)@.skip(n)
            &&& final(k)@ == old(k)@
            &&& follow::only_fd(old(s)@, final(s)@, h as int, i as int)
            &&& follow::fds(final(s)@, h as int)[i as int] == (Fd { off: (f.off + n) as u64, ..f })
        }),
{
    follow::law_read_in_memory(old(s)@, old(k)@, h as int, i, held@, old(buf)@);
}

/// A copy of a descriptor is the lowest that was free and stands for the same,
/// at the same offset.
pub proof fn law_dup(s: &mut Sched, h: usize, i: i32, r: i64)
    requires
        follow::calls(old(s)@, h as int),
        call_ensures(fd::sys_dup, (s, h, i), r),
    ensures
        ({
            let a = follow::fds(old(s)@, h as int);
            let b = follow::fds(final(s)@, h as int);
            &&& r >= 0 <==> 0 <= i < NFD && a[i as int].kind != 0 && exists|j: int| 0 <= j < NFD && (#[trigger] a[j]).kind == 0
            &&& r < 0 ==> final(s)@ == old(s)@
            &&& r >= 0 ==> {
                &&& r < NFD && a[r as int].kind == 0
                &&& forall|j: int| 0 <= j < r ==> (#[trigger] a[j]).kind != 0
                &&& b[r as int].kind == a[i as int].kind && b[r as int].off == a[i as int].off && b[r as int].path
                    == a[i as int].path
                &&& follow::only_fd(old(s)@, final(s)@, h as int, r as int)
            }
        }),
{
    follow::law_dup_copies(old(s)@, h as int, i);
}

/// A descriptor that is closed is free, and no other changes; only a number
/// that is none is refused.
pub proof fn law_close(s: &mut Sched, h: usize, i: i32, r: i64)
    requires
        follow::calls(old(s)@, h as int),
        call_ensures(fd::sys_close, (s, h, i), r),
    ensures
        0 <= i < NFD ==> r == 0 && follow::fds(final(s)@, h as int)[i as int].kind == 0 && follow::only_fd(
            old(s)@,
            final(s)@,
            h as int,
            i as int,
        ),
        !(0 <= i < NFD) ==> r == -1 && final(s)@ == old(s)@,
{
    if 0 <= i < NFD {
        let f = follow::fds(old(s)@, h as int)[i as int];
        follow::lemma_table(old(s)@, h as int, i as int, Fd { kind: fd::FD_FREE, id: fd::NO_FD, ..f });
    }
}

/// A pipe's ends are the two lowest descriptors that were free, the one to read
/// first, of a pipe that is new and empty.
pub proof fn law_pipe(s: &mut Sched, k: &mut Files, h: usize, addr: u64, r: Option<(i32, i32)>)
    requires
        follow::calls(old(s)@, h as int),
        addr != 0,
        old(k)@.pipes.len() < u64::MAX,
        call_ensures(file::sys_pipe, (s, k, h, addr), r),
    ensures
        r is None ==> !exists|x: int, y: int|
            3 <= x < y < NFD && (#[trigger] follow::fds(old(s)@, h as int)[x]).kind == 0 && (#[trigger] follow::fds(
                old(s)@,
                h as int,
            )[y]).kind == 0,
        r is Some ==> {
            let (x, y) = r->0;
            let a = follow::fds(old(s)@, h as int);
            let b = follow::fds(final(s)@, h as int);
            &&& 3 <= x < y < NFD
            &&& a[x as int].kind == 0 && a[y as int].kind == 0
            &&& forall|j: int| 3 <= j < y && j != x ==> (#[trigger] a[j]).kind != 0
            &&& b[x as int].kind == 5 && b[y as int].kind == 6
            &&& b[x as int].path == old(k)@.pipes.len() && b[y as int].path == old(k)@.pipes.len()
            &&& final(k)@.pipes == old(k)@.pipes.push(Seq::empty())
        },
{
    follow::law_pipe_has_two_ends(old(s)@, old(k)@, h as int, addr);
    assert(final(k)@.pipes =~= old(k)@.pipes.push(Seq::empty()));
}

/// What goes into a pipe comes out, in order and once.
pub proof fn law_pipe_flow(
    s: &mut Sched,
    k: &mut Files,
    t: &mut Sched,
    l: &mut Files,
    h: usize,
    x: i32,
    y: i32,
    src: &[u8],
    held: &[u8],
    buf: &mut [u8],
    n: (usize, bool),
    r: (usize, usize),
)
    requires
        follow::calls(old(s)@, h as int),
        0 <= x < NFD,
        0 <= y < NFD,
        follow::fds(old(s)@, h as int)[x as int].kind == 5,
        follow::fds(old(s)@, h as int)[y as int].kind == 6,
        follow::fds(old(s)@, h as int)[x as int].path == follow::fds(old(s)@, h as int)[y as int].path,
        follow::fds(old(s)@, h as int)[x as int].path < old(k)@.pipes.len(),
        old(k)@.pipes[follow::fds(old(s)@, h as int)[x as int].path as int].len() <= 1024,
        src@.len() > 0,
        old(buf)@.len() > 0,
        call_ensures(file::sys_write, (s, k, h, y, src), n),
        old(t)@ == final(s)@,
        old(l)@ == final(k)@,
        call_ensures(file::sys_read, (t, l, h, x, held, buf), r),
    ensures
        ({
            let id = follow::fds(old(s)@, h as int)[x as int].path as int;
            let c = old(k)@.pipes[id];
            let all = c + src@.take(n.0 as int);
            &&& n.0 == if src@.len() <= 1024 - c.len() { src@.len() as int } else { 1024 - c.len() }
            &&& r.0 == if all.len() <= old(buf)@.len() { all.len() } else { old(buf)@.len() }
            &&& final(buf)@.take(r.0 as int) == all.take(r.0 as int)
            &&& final(l)@.pipes[id] == all.skip(r.0 as int)
            &&& final(l)@.fs == old(k)@.fs
            &&& final(t)@ == old(s)@
        }),
{
    follow::law_pipe_carries(old(s)@, old(k)@, h as int, x, y, src@, held@, old(buf)@);
}

/// What is typed is read up to the end of a line, in order and once.
pub proof fn law_console_read(
    s: &mut Sched,
    k: &mut Files,
    h: usize,
    i: i32,
    held: &[u8],
    buf: &mut [u8],
    r: (usize, usize),
)
    requires
        follow::calls(old(s)@, h as int),
        0 <= i < NFD,
        follow::fds(old(s)@, h as int)[i as int].kind == 1,
        old(buf)@.len() > 0,
        call_ensures(file::sys_read, (s, k, h, i, held, buf), r),
    ensures
        ({
            let typed = old(k)@.uart.rx + held@;
            let n = r.0 as int;
            &&& n <= typed.len() && n <= old(buf)@.len()
            &&& final(buf)@.take(n) == typed.take(n)
            &&& final(buf)@.skip(n) == old(buf)@.skip(n)
            &&& forall|x: int| 0 <= x < n - 1 ==> #[trigger] typed[x] != 0x0a
            &&& n == old(buf)@.len() || n == typed.len() || (n > 0 && typed[n - 1] == 0x0a)
            &&& r.1 <= held@.len()
            &&& final(k)@.uart.rx + held@.skip(r.1 as int) == typed.skip(n)
        }),
{
    follow::law_console_reads_a_line(old(s)@, old(k)@, h as int, i, held@, old(buf)@);
}

/// Directories and names in memory: a directory is made where there was none, a
/// file is taken away where there was one.
pub proof fn law_mkdir(k: &mut Files, path: &[u8], r: i64, other: Seq<u8>)
    requires
        !old(k)@.fs.on_disk,
        call_ensures(file::sys_mkdir, (k, Some(path)), r),
    ensures
        r == if old(k)@.fs.ram.dirs.contains(path@) { -1int } else { 0 },
        final(k)@.fs.ram.dirs.contains(path@),
        other != path@ ==> (final(k)@.fs.ram.dirs.contains(other) <==> old(k)@.fs.ram.dirs.contains(other)),
        final(k)@.fs.ram.files == old(k)@.fs.ram.files,
{
    tree::law_mkdir_in_memory(old(k)@.fs, path@, other);
}

pub proof fn law_unlink(k: &mut Files, path: &[u8], r: i64, other: Seq<u8>)
    requires
        !old(k)@.fs.on_disk,
        tree::at_most_once(old(k)@.fs.ram, path@),
        call_ensures(file::sys_unlink, (k, Some(path)), r),
    ensures
        r == if old(k)@.fs.ram.file(path@) is Some { 0int } else { -1 },
        final(k)@.fs.ram.file(path@) is None,
        other != path@ ==> final(k)@.fs.ram.file(other) == old(k)@.fs.ram.file(other),
        final(k)@.fs.ram.dirs == old(k)@.fs.ram.dirs,
{
    tree::law_unlink_in_memory(old(k)@.fs, path@, other);
}

pub proof fn law_link(k: &mut Files, from: &[u8], to: &[u8], r: i64, other: Seq<u8>)
    requires
        !old(k)@.fs.on_disk,
        call_ensures(file::sys_link, (k, Some(from), Some(to)), r),
    ensures
        ({
            let a = old(k)@.fs.ram;
            let b = final(k)@.fs.ram;
            &&& r == 0 <==> a.file(from@) is Some && a.file(to@) is None && !a.dirs.contains(to@) && to@ != seq![0x2fu8]
            &&& r == 0 ==> b.file(to@) == a.file(from@) && b.file(from@) == a.file(from@)
            &&& other != to@ ==> b.file(other) == a.file(other)
            &&& r != 0 ==> r == -1 && final(k)@ == old(k)@
        }),
{
    tree::law_link_in_memory(old(k)@.fs, from@, to@, other);
}

/// The names of a directory stand in the buffer one behind the other, each with
/// a zero byte, as many as fit.
pub proof fn law_getdents(k: &mut Files, path: &[u8], buf: &mut [u8], r: Option<usize>)
    requires
        call_ensures(file::sys_getdents, (k, Some(path), buf), r),
    ensures
        r is Some,
        ({
            let l = old(k)@.fs.names(path@);
            let c = r->0 as int;
            let b = follow::zero_ended(l.take(c));
            &&& c <= l.len()
            &&& b.len() <= old(buf)@.len()
            &&& final(buf)@.take(b.len() as int) == b
            &&& final(buf)@.skip(b.len() as int) == old(buf)@.skip(b.len() as int)
            &&& c < l.len() ==> b.len() + l[c].len() + 1 > old(buf)@.len()
            &&& final(k)@ == old(k)@
        }),
{
    let l = old(k)@.fs.names(path@);
    follow::law_names_are_packed(l, 0, old(buf)@.len() as int);
    let c = r->0 as int;
    assert(l.subrange(0, c) =~= l.take(c));
    let b = follow::zero_ended(l.take(c));
    assert(final(buf)@.take(b.len() as int) =~= b);
    assert(final(buf)@.skip(b.len() as int) =~= old(buf)@.skip(b.len() as int));
}

// ---- by number ----

/// Call 10 opens what its path in the program's memory says.
pub proof fn law_call_open(
    x: &mut Kernel,
    h: usize,
    ptr: u64,
    path: Seq<u8>,
    flags: u64,
    held: &[u8],
    now: u64,
    ksp: u64,
    r: Reply,
)
    requires
        follow::calls(old(x)@.s, h as int),
        !old(x)@.k.fs.on_disk,
        old(x)@.k.reg.len() < u64::MAX,
        ptr != 0,
        ask::holds(old(x)@.m, ask::own(old(x)@, h as int), ptr, path.push(0)),
        forall|k: int| 0 <= k < path.len() ==> #[trigger] path[k] != 0,
        path.len() < text::MAX_PATH,
        vstd::utf8::valid_utf8(path),
        call_ensures(serve::handle, (x, h, 10u64, ptr, flags, 0u64, held, now, ksp), r),
    ensures
        r@ is Value,
        ({
            let v = r@->v;
            let t = flags as i32 & 0x200 != 0;
            let a = old(x)@.k.fs.ram;
            let b = final(x)@.k.fs.ram;
            &&& v >= 0 && t ==> b.file(path) == Some(Seq::<u8>::empty())
            &&& a.file(path) is Some && !t ==> b == a
            &&& a.file(path) is None && flags as i32 & 0x40 == 0 ==> v == -1 && final(x)@ == old(x)@
            &&& final(x)@.m == old(x)@.m
        }),
{
    ask::law_open_call(old(x)@, final(x)@, h as int, ptr, path, flags, held@, now, ksp, r@);
}

/// Call 6 on a file in memory puts the program's bytes into it.
pub proof fn law_call_write(
    x: &mut Kernel,
    h: usize,
    i: u64,
    buf: u64,
    v: Seq<u8>,
    held: &[u8],
    now: u64,
    ksp: u64,
    r: Reply,
)
    requires
        follow::calls(old(x)@.s, h as int),
        !old(x)@.k.fs.on_disk,
        i < NFD,
        follow::fds(old(x)@.s, h as int)[i as int].kind == 4,
        follow::fds(old(x)@.s, h as int)[i as int].path < old(x)@.k.reg.len(),
        old(x)@.k.fs.ram.file(old(x)@.k.reg[follow::fds(old(x)@.s, h as int)[i as int].path as int]) is Some,
        0 < v.len() <= u64::MAX,
        follow::fds(old(x)@.s, h as int)[i as int].off + v.len() <= usize::MAX,
        ask::holds(old(x)@.m, ask::own(old(x)@, h as int), buf, v),
        call_ensures(serve::handle, (x, h, 6u64, i, buf, v.len() as u64, held, now, ksp), r),
    ensures
        ({
            let f = follow::fds(old(x)@.s, h as int)[i as int];
            let path = old(x)@.k.reg[f.path as int];
            let c = final(x)@.k.fs.ram.file(path)->0;
            &&& r@ == (ReplyV::Value { v: v.len() as int })
            &&& final(x)@.k.fs.ram.file(path) is Some
            &&& c.len() >= f.off + v.len()
            &&& c.subrange(f.off as int, f.off + v.len()) == v
            &&& follow::fds(final(x)@.s, h as int)[i as int].off == f.off + v.len()
            &&& final(x)@.m == old(x)@.m
        }),
{
    ask::law_file_write_call(old(x)@, final(x)@, h as int, i, buf, v, held@, now, ksp, r@);
}

/// Call 5 on a file in memory puts the file's bytes into the program's buffer.
pub proof fn law_call_read(
    x: &mut Kernel,
    h: usize,
    i: u64,
    buf: u64,
    len: u64,
    v: Seq<u8>,
    held: &[u8],
    now: u64,
    ksp: u64,
    r: Reply,
)
    requires
        follow::calls(old(x)@.s, h as int),
        !old(x)@.k.fs.on_disk,
        i < NFD,
        follow::fds(old(x)@.s, h as int)[i as int].kind == 4,
        follow::fds(old(x)@.s, h as int)[i as int].path < old(x)@.k.reg.len(),
        follow::fds(old(x)@.s, h as int)[i as int].off + len <= u64::MAX,
        old(x)@.k.fs.ram.file(old(x)@.k.reg[follow::fds(old(x)@.s, h as int)[i as int].path as int]) is Some,
        0 < len <= usize::MAX,
        v.len() == len,
        ask::holds(old(x)@.m, ask::own(old(x)@, h as int), buf, v),
        call_ensures(serve::handle, (x, h, 5u64, i, buf, len, held, now, ksp), r),
    ensures
        ({
            let f = follow::fds(old(x)@.s, h as int)[i as int];
            let c = old(x)@.k.fs.ram.file(old(x)@.k.reg[f.path as int])->0;
            let n = r@->n;
            &&& r@ is Took
            &&& 0 <= n <= len
            &&& f.off <= c.len() ==> f.off + n <= c.len() && (n == len || f.off + n == c.len())
            &&& n > 0 ==> ask::stored(
                old(x)@.m,
                final(x)@.m,
                ask::own(old(x)@, h as int),
                buf,
                c.subrange(f.off as int, f.off + n),
            )
            &&& final(x)@.k == old(x)@.k
        }),
{
    ask::law_file_read_call(old(x)@, final(x)@, h as int, i, buf, len, v, held@, now, ksp, r@);
}

/// Call 6 on the console hands out the program's bytes to be printed.
pub proof fn law_call_print(
    x: &mut Kernel,
    h: usize,
    i: u64,
    buf: u64,
    v: Seq<u8>,
    held: &[u8],
    now: u64,
    ksp: u64,
    r: Reply,
)
    requires
        follow::calls(old(x)@.s, h as int),
        i < NFD,
        follow::fds(old(x)@.s, h as int)[i as int].kind == 2,
        0 < v.len() <= u64::MAX,
        follow::fds(old(x)@.s, h as int)[i as int].off + v.len() <= usize::MAX,
        ask::holds(old(x)@.m, ask::own(old(x)@, h as int), buf, v),
        call_ensures(serve::handle, (x, h, 6u64, i, buf, v.len() as u64, held, now, ksp), r),
    ensures
        final(x)@ == old(x)@,
        r@ == (ReplyV::Print { bytes: v }),
{
    ask::law_console_call(old(x)@, final(x)@, h as int, i, buf, v, held@, now, ksp, r@);
}

/// Calls that only answer.
pub proof fn law_call_plain(
    x: &mut Kernel,
    h: usize,
    id: u64,
    a0: u64,
    a1: u64,
    a2: u64,
    held: &[u8],
    now: u64,
    ksp: u64,
    r: Reply,
)
    requires
        follow::calls(old(x)@.s, h as int),
        call_ensures(serve::handle, (x, h, id, a0, a1, a2, held, now, ksp), r),
    ensures
        id == 12 ==> final(x)@ == old(x)@ && r@ == (ReplyV::Value { v: old(x)@.s.current[h as int] as i64 as int }),
        id == 2 ==> final(x)@ == old(x)@ && r@ == (ReplyV::Leave { code: a0 as i32 }),
        id == 14 ==> final(x)@ == old(x)@ && r@ == (ReplyV::Sleep { ticks: a0 }),
        id == 0 || id > 23 ==> final(x)@ == old(x)@ && r@ == (ReplyV::Value { v: -1 }),
        id == 23 ==> r@ is Off,
        r@ is Fault ==> final(x)@ == old(x)@,
{
    ask::law_plain_calls(old(x)@, final(x)@, h as int, id, a0, a1, a2, held@, now, ksp, r@);
    if r@ is Fault {
        ask::law_fault_changes_nothing(old(x)@, final(x)@, h as int, id, a0, a1, a2, held@, now, ksp, r@);
    }
}

/// Calls 7 and 11: a descriptor is freed, or copied to the lowest that is free.
pub proof fn law_call_descriptor(
    x: &mut Kernel,
    h: usize,
    id: u64,
    i: u64,
    a1: u64,
    a2: u64,
    held: &[u8],
    now: u64,
    ksp: u64,
    r: Reply,
)
    requires
        follow::calls(old(x)@.s, h as int),
        id == 7 || id == 11,
        i < NFD,
        call_ensures(serve::handle, (x, h, id, i, a1, a2, held, now, ksp), r),
    ensures
        r@ is Value,
        final(x)@ == (KernelV { s: final(x)@.s, ..old(x)@ }),
        ({
            let a = follow::fds(old(x)@.s, h as int);
            let b = follow::fds(final(x)@.s, h as int);
            let v = r@->v;
            &&& id == 7 ==> v == 0 && b[i as int].kind == 0 && follow::only_fd(old(x)@.s, final(x)@.s, h as int, i as int)
            &&& id == 11 && a[i as int].kind == 0 ==> v == -1 && final(x)@ == old(x)@
            &&& id == 11 && v >= 0 ==> v < NFD && a[v].kind == 0 && b[v].kind == a[i as int].kind && b[v].off
                == a[i as int].off && b[v].path == a[i as int].path && follow::only_fd(old(x)@.s, final(x)@.s, h as int, v)
            &&& id == 11 && v < 0 && a[i as int].kind != 0 ==> forall|j: int| 0 <= j < NFD ==> (#[trigger] a[j]).kind != 0
        }),
{
    ask::lemma_caller(old(x)@, h as int);
    if id == 7 {
        let f = follow::fds(old(x)@.s, h as int)[i as int];
        follow::lemma_table(old(x)@.s, h as int, i as int, Fd { kind: fd::FD_FREE, id: fd::NO_FD, ..f });
    } else {
        follow::law_dup_copies(old(x)@.s, h as int, i as i32);
    }
}

/// Calls 17 and 19 in memory: the path in the program's memory names the
/// directory that is made, or the file that goes.
pub proof fn law_call_names(
    x: &mut Kernel,
    h: usize,
    id: u64,
    ptr: u64,
    path: Seq<u8>,
    a1: u64,
    a2: u64,
    held: &[u8],
    now: u64,
    ksp: u64,
    r: Reply,
)
    requires
        follow::calls(old(x)@.s, h as int),
        !old(x)@.k.fs.on_disk,
        id == 17 || id == 19,
        tree::at_most_once(old(x)@.k.fs.ram, path),
        ptr != 0,
        ask::holds(old(x)@.m, ask::own(old(x)@, h as int), ptr, path.push(0)),
        forall|k: int| 0 <= k < path.len() ==> #[trigger] path[k] != 0,
        path.len() < text::MAX_PATH,
        vstd::utf8::valid_utf8(path),
        call_ensures(serve::handle, (x, h, id, ptr, a1, a2, held, now, ksp), r),
    ensures
        ({
            let a = old(x)@.k.fs.ram;
            let b = final(x)@.k.fs.ram;
            &&& r@ is Value
            &&& id == 17 ==> b.dirs.contains(path) && b.files == a.files && (r@->v == 0 <==> !a.dirs.contains(path))
            &&& id == 19 ==> b.file(path) is None && b.dirs == a.dirs && (r@->v == 0 <==> a.file(path) is Some)
            &&& final(x)@.s == old(x)@.s && final(x)@.m == old(x)@.m
        }),
{
    ask::lemma_caller(old(x)@, h as int);
    ask::law_path_is_read(old(x)@.m, ask::own(old(x)@, h as int), ptr, path);
    tree::law_mkdir_in_memory(old(x)@.k.fs, path, path);
    tree::law_unlink_in_memory(old(x)@.k.fs, path, path);
}

/// Call 22 puts the names of a directory into the program's buffer.
pub proof fn law_call_list(
    x: &mut Kernel,
    h: usize,
    ptr: u64,
    path: Seq<u8>,
    buf: u64,
    len: u64,
    v: Seq<u8>,
    held: &[u8],
    now: u64,
    ksp: u64,
    r: Reply,
)
    requires
        follow::calls(old(x)@.s, h as int),
        ptr != 0,
        buf != 0,
        v.len() == len,
        ask::holds(old(x)@.m, ask::own(old(x)@, h as int), buf, v),
        ask::holds(old(x)@.m, ask::own(old(x)@, h as int), ptr, path.push(0)),
        forall|k: int| 0 <= k < path.len() ==> #[trigger] path[k] != 0,
        path.len() < text::MAX_PATH,
        vstd::utf8::valid_utf8(path),
        call_ensures(serve::handle, (x, h, 22u64, ptr, buf, len, held, now, ksp), r),
    ensures
        ({
            let l = old(x)@.k.fs.names(path);
            let c = r@->v;
            &&& r@ is Value
            &&& 0 <= c <= l.len()
            &&& follow::zero_ended(l.take(c)).len() <= len
            &&& c < l.len() ==> follow::zero_ended(l.take(c)).len() + l[c].len() + 1 > len
            &&& ask::stored(
                old(x)@.m,
                final(x)@.m,
                ask::own(old(x)@, h as int),
                buf,
                follow::zero_ended(l.take(c)),
            )
        }),
{
    let a = old(x)@;
    ask::lemma_caller(a, h as int);
    ask::law_path_is_read(a.m, ask::own(a, h as int), ptr, path);
    ask::lemma_bytes(a, h as int, buf, v);
    let l = a.k.fs.names(path);
    follow::law_names_are_packed(l, 0, len as int);
    let (c, d) = file::packed(l, 0, len as int);
    assert(l.subrange(0, c) =~= l.take(c));
    assert forall|k: int| 0 <= k < d.len() implies #[trigger] text::mapped(a.m, a.root(h as int), buf, k) by {}
    assert(buf + d.len() <= VA_END);
    ask::lemma_poked(a.m, final(x)@.m, ask::own(a, h as int), buf, d);
}

/// Call 3 answers with the first child that has ended and puts its code into
/// the program's memory, four bytes with the lowest first; that child is gone
/// then.
pub proof fn law_call_wait(
    x: &mut Kernel,
    h: usize,
    addr: u64,
    a1: u64,
    a2: u64,
    v: Seq<u8>,
    held: &[u8],
    now: u64,
    ksp: u64,
    r: Reply,
    i: int,
)
    requires
        follow::calls(old(x)@.s, h as int),
        addr != 0,
        v.len() == 4,
        ask::holds(old(x)@.m, ask::own(old(x)@, h as int), addr, v),
        ({
            let s = old(x)@.s;
            let kids = (s.procs[s.current[h as int] as int]->0).children;
            &&& 0 <= i < kids.len()
            &&& kids[i] != s.current[h as int]
            &&& kids[i] <= i32::MAX
            &&& ended(s, kids[i])
            &&& forall|j: int| 0 <= j < i ==> !#[trigger] ended(s, kids[j])
        }),
        call_ensures(serve::handle, (x, h, 3u64, addr, a1, a2, held, now, ksp), r),
    ensures
        ({
            let s = old(x)@.s;
            let c = (s.procs[s.current[h as int] as int]->0).children[i];
            let code = (s.procs[c as int]->0).exit_code as u32;
            &&& r@ == (ReplyV::Value { v: c as int })
            &&& final(x)@.s.procs[c as int] is None
            &&& ask::holds(
                final(x)@.m,
                ask::own(old(x)@, h as int),
                addr,
                seq![
                    (code % 256) as u8,
                    (code / 0x100 % 256) as u8,
                    (code / 0x1_0000 % 256) as u8,
                    (code / 0x100_0000) as u8,
                ],
            )
        }),
{
    let a = old(x)@;
    let b = final(x)@;
    let s = a.s;
    ask::lemma_caller(a, h as int);
    ask::lemma_bytes(a, h as int, addr, v);
    let p = s.procs[s.current[h as int] as int]->0;
    let kids = p.children;
    assert forall|j: int| 0 <= j < kids.len() implies #[trigger] family::over(s, p.ns, wait::ANY_CHILD, kids, j) == ended(
        s,
        kids[j],
    ) by {}
    family::law_first_ended_child_is_found(s, p.ns, wait::ANY_CHILD, kids, 0);
    assert(family::over(s, p.ns, wait::ANY_CHILD, kids, i));
    let c = kids[i];
    if s.ended(p.ns, wait::ANY_CHILD, kids, 0) is Some {
        let k = choose|k: int|
            0 <= k < kids.len() && kids[k] == s.ended(p.ns, wait::ANY_CHILD, kids, 0)->0 && #[trigger] family::over(
                s,
                p.ns,
                wait::ANY_CHILD,
                kids,
                k,
            ) && (forall|j: int| 0 <= j < k ==> !#[trigger] family::over(s, p.ns, wait::ANY_CHILD, kids, j));
        assert(ended(s, kids[k]));
        assert(k == i);
    }
    family::law_reaped_child_is_gone(s, s.current[h as int], c, c);
    assert(serve::wait_served(a, b, h as int, addr, r@));
    let (m1, w, code) = choose|m1: MemV, w: i64, code: i32| #[trigger]
        calls::wait_done(a.s, a.m, b.s, m1, h as int, w, code) && r@ == (ReplyV::Value { v: w as int })
            && if serve::reports(a, h as int, addr) && fd::busy(b.s, h as int) {
            serve::poked(m1, b.m, a.root(h as int), addr, dev::le4(code as u32))
        } else {
            b.m == m1
        };
    let u = code as u32;
    let d = dev::le4(u);
    assert(d =~= seq![(u % 256) as u8, (u / 0x100 % 256) as u8, (u / 0x1_0000 % 256) as u8, (u / 0x100_0000) as u8]);
    ask::lemma_poked(m1, b.m, ask::own(a, h as int), addr, d);
}

/// The process has ended and was not reaped.
pub open spec fn ended(s: SchedV, c: usize) -> bool {
    c < s.procs.len() && (s.procs[c as int] matches Some(p) && p.state is Zombie)
}

/// Call 1 answers the parent with the child's number; the child has every
/// descriptor of its parent, and the parent's memory is as it was.
pub proof fn law_call_fork(
    x: &mut Kernel,
    h: usize,
    a0: u64,
    a1: u64,
    a2: u64,
    held: &[u8],
    now: u64,
    ksp: u64,
    r: Reply,
    i: int,
)
    requires
        follow::calls(old(x)@.s, h as int),
        old(x)@.s.next_pid < 0x7fff_ffff,
        0 <= i < NFD,
        call_ensures(serve::handle, (x, h, 1u64, a0, a1, a2, held, now, ksp), r),
        r@ is Value,
        0 <= r@->v < 0x7fff_ffff,
    ensures
        ({
            let s = old(x)@.s;
            let p = s.procs[s.current[h as int] as int]->0;
            let c = r@->v;
            let q = final(x)@.s.procs[c]->0;
            &&& c == s.next_pid
            &&& final(x)@.s.procs[c] is Some
            &&& q.fds[i].kind == p.fds[i].kind && q.fds[i].off == p.fds[i].off && q.fds[i].path == p.fds[i].path && q.fds[i].id
                == p.fds[i].id
            &&& q.cwd == p.cwd && q.fsroot == p.fsroot && q.brk == p.brk && q.cg == p.cg
            &&& q.parent == s.current[h as int]
            &&& final(x)@.k == old(x)@.k
        }),
{
    let a = old(x)@;
    let b = final(x)@;
    ask::lemma_caller(a, h as int);
    assert(serve::fork_served(a, b, h as int, now, r@));
    let v = r@->v;
    family::law_fork_inherits(a.s, a.m, b.s, b.m, a.kroot, a.s.current[h as int], h as int, now, v as usize);
}

/// A program that replaces another keeps the descriptors that are not marked to
/// close, the directories and the family; it starts at the file's entry. What is
/// no executable, or not there, changes nothing.
pub proof fn law_exec(
    s: &mut Sched,
    m: &mut Mem,
    fs: &mut Fs,
    kroot: u64,
    h: usize,
    path: &[u8],
    av: &Vec<Vec<u8>>,
    env: &Vec<Vec<u8>>,
    ksp: u64,
    r: i64,
    i: int,
)
    requires
        follow::calls(old(s)@, h as int),
        old(m)@.ram[frame::fi((old(s)@.procs[old(s)@.current[h as int] as int]->0).tf_pa)].len() == WORDS,
        0 <= i < NFD,
        call_ensures(calls::sys_exec, (s, m, fs, kroot, h, Some(path), av, env, ksp), r),
    ensures
        ({
            let pid = old(s)@.current[h as int] as int;
            let p = old(s)@.procs[pid]->0;
            let q = final(s)@.procs[pid]->0;
            let d = old(fs)@.whole(path@)->0;
            let f = final(m)@.ram[frame::fi(p.tf_pa)];
            &&& r == 0 || r == -1
            &&& r == -1 ==> final(s)@ == old(s)@
            &&& old(fs)@.whole(path@) is None ==> r == -1 && final(m)@ == old(m)@
            &&& r == 0 ==> d.len() >= 64 && d[0] == 0x7f && d[1] == 0x45 && d[2] == 0x4c && d[3] == 0x46
            &&& r == 0 && !p.fds[i].cloexec ==> q.fds[i].kind == p.fds[i].kind && q.fds[i].off == p.fds[i].off
                && q.fds[i].path == p.fds[i].path
            &&& r == 0 && p.fds[i].cloexec ==> q.fds[i].kind == 0
            &&& r == 0 ==> q.cwd == p.cwd && q.fsroot == p.fsroot && q.children == p.children && q.parent == p.parent
                && q.cg == p.cg
            &&& r == 0 ==> f[33] == begin::le8(d, 0x18)
            &&& final(fs)@ == old(fs)@
        }),
{
    let pid = old(s)@.current[h as int];
    let file = old(fs)@.whole(path@);
    if r == 0 {
        let d = file->0;
        begin::law_executable_file(d);
        family::law_exec_keeps(
            old(s)@,
            old(m)@,
            final(s)@,
            final(m)@,
            pid,
            d,
            args::strs_of(av@),
            args::strs_of(env@),
            ksp,
        );
    }
}

/// The status of a file in memory is its length.
pub proof fn law_fstat(s: &Sched, k: &mut Files, h: usize, i: i32, out: u64, r: Option<(u32, u32, u32)>)
    requires
        follow::calls(s@, h as int),
        0 <= i < NFD,
        out != 0,
        follow::fds(s@, h as int)[i as int].kind == 4,
        follow::fds(s@, h as int)[i as int].path < old(k)@.reg.len(),
        !old(k)@.fs.on_disk,
        old(k)@.fs.ram.file(old(k)@.reg[follow::fds(s@, h as int)[i as int].path as int]) is Some,
        call_ensures(file::sys_fstat, (s, k, h, i, out), r),
    ensures
        r is Some,
        (r->0).0 == 4,
        (r->0).1 == (old(k)@.fs.ram.file(old(k)@.reg[follow::fds(s@, h as int)[i as int].path as int])->0).len() as u32,
        final(k)@ == old(k)@,
{
    follow::law_status_of_a_file(s@, old(k)@, h as int, i, out);
}

/// Call 8 reaches the process that the caller means.
pub proof fn law_call_kill(
    x: &mut Kernel,
    h: usize,
    pid: u64,
    a1: u64,
    a2: u64,
    held: &[u8],
    now: u64,
    ksp: u64,
    r: Reply,
    t: int,
)
    requires
        follow::calls(old(x)@.s, h as int),
        pid <= usize::MAX,
        0 <= t < old(x)@.s.procs.len() <= usize::MAX,
        old(x)@.s.procs[t] matches Some(p) && p.ns == (old(x)@.s.procs[old(x)@.s.current[h as int] as int]->0).ns && p.lpid
            == pid,
        forall|j: int|
            0 <= j < old(x)@.s.procs.len() && j != t && #[trigger] old(x)@.s.procs[j] is Some ==> (
            old(x)@.s.procs[j]->0).ns != (old(x)@.s.procs[t]->0).ns || (old(x)@.s.procs[j]->0).lpid != pid,
        call_ensures(serve::handle, (x, h, 8u64, pid, a1, a2, held, now, ksp), r),
    ensures
        ({
            let live = !((old(x)@.s.procs[t]->0).state is Zombie);
            &&& r@ == (ReplyV::Value { v: if live { 0 } else { -1 } })
            &&& live ==> final(x)@.s.procs[t] is Some && (final(x)@.s.procs[t]->0).killed && (
            final(x)@.s.procs[t]->0).kill_code == -9
            &&& !live ==> final(x)@ == old(x)@
            &&& forall|j: int|
                0 <= j < old(x)@.s.procs.len() && j != t ==> #[trigger] final(x)@.s.procs[j] == old(x)@.s.procs[j]
        }),
{
    let a = old(x)@;
    ask::law_kill_call(a, final(x)@, h as int, pid, a1, a2, held@, now, ksp, r@);
    family::law_names_are_local(a.s, h as int, pid as usize);
    assert(a.s.target(h as int, pid as usize) == t);
}

/// Call 13 moves the break: the answer is where it was, and what was there
/// stays.
pub proof fn law_call_break(
    x: &mut Kernel,
    h: usize,
    inc: u64,
    a1: u64,
    a2: u64,
    held: &[u8],
    now: u64,
    ksp: u64,
    r: Reply,
    u: u64,
)
    requires
        follow::calls(old(x)@.s, h as int),
        0 < inc < 0x8000_0000,
        (old(x)@.s.procs[old(x)@.s.current[h as int] as int]->0).brk + inc <= VA_END,
        u < VA_END,
        call_ensures(serve::handle, (x, h, 13u64, inc, a1, a2, held, now, ksp), r),
        !(r@ is Fault),
    ensures
        ({
            let p = old(x)@.s.procs[old(x)@.s.current[h as int] as int]->0;
            let q = final(x)@.s.procs[old(x)@.s.current[h as int] as int]->0;
            &&& r@ == (ReplyV::Value { v: p.brk as i64 as int })
            &&& q.brk == p.brk + inc
            &&& space::umem(old(x)@.m, p.root, u) is Some ==> space::umem(final(x)@.m, p.root, u) == space::umem(
                old(x)@.m,
                p.root,
                u,
            )
            &&& space::umem(old(x)@.m, p.root, u) is None && space::umem(final(x)@.m, p.root, u) is Some ==> space::umem(
                final(x)@.m,
                p.root,
                u,
            ) == Some(0u8)
        }),
{
    ask::law_break_call(old(x)@, final(x)@, h as int, inc, a1, a2, held@, now, ksp, r@);
}

} // verus!
