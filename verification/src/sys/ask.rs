//! Calls as a program makes them: by number, with its own memory.
use crate::mem::frame::MemV;
use crate::mem::pagetable as pt;
use crate::mem::space;
use crate::mem::space::VA_END;
use crate::sys::call;
use crate::sys::call::Call;
use crate::sys::fd;
use crate::sys::file;
use crate::sys::follow;
use crate::sys::reach;
use crate::sys::serve;
use crate::sys::serve::{KernelV, ReplyV};
use crate::sys::text;
use crate::task::family;
use crate::task::state::{ProcV, SchedV, NFD};
use vstd::prelude::*;

verus! {

/// User memory holds these bytes from an address on.
pub open spec fn holds(m: MemV, root: u64, ptr: u64, v: Seq<u8>) -> bool {
    &&& ptr + v.len() <= VA_END
    &&& forall|u: u64|
        ptr <= u < ptr + v.len() ==> #[trigger] space::umem(m, root, u) == Some(v[u - ptr])
}

/// It holds them, and every other byte is as before.
pub open spec fn stored(m: MemV, n: MemV, root: u64, ptr: u64, v: Seq<u8>) -> bool {
    &&& holds(n, root, ptr, v)
    &&& forall|u: u64|
        u < VA_END && !(ptr <= u < ptr + v.len()) ==> #[trigger] space::umem(n, root, u) == space::umem(m, root, u)
}

/// The caller's memory.
pub open spec fn own(a: KernelV, h: int) -> u64 {
    (a.s.procs[a.s.current[h] as int]->0).root
}

/// Numbers of the calls.
pub proof fn law_numbers(a0: u64, a1: u64, a2: u64, id: u64)
    ensures
        call::decoded(1, a0, a1, a2) == Call::Fork,
        call::decoded(2, a0, a1, a2) == (Call::Exit { code: a0 as i32 }),
        call::decoded(3, a0, a1, a2) == (Call::Wait { addr: a0 }),
        call::decoded(4, a0, a1, a2) == (Call::Pipe { addr: a0 }),
        call::decoded(5, a0, a1, a2) == (Call::Read { fd: a0 as i32, buf: a1, len: a2 }),
        call::decoded(6, a0, a1, a2) == (Call::Write { fd: a0 as i32, buf: a1, len: a2 }),
        call::decoded(7, a0, a1, a2) == (Call::Close { fd: a0 as i32 }),
        call::decoded(8, a0, a1, a2) == (Call::Kill { pid: a0 }),
        call::decoded(9, a0, a1, a2) == (Call::Exec { path: a0, argv: a1 }),
        call::decoded(10, a0, a1, a2) == (Call::Open { path: a0, flags: a1 as i32 }),
        call::decoded(11, a0, a1, a2) == (Call::Dup { fd: a0 as i32 }),
        call::decoded(12, a0, a1, a2) == Call::GetPid,
        call::decoded(13, a0, a1, a2) == (Call::Sbrk { inc: a0 as i32 }),
        call::decoded(14, a0, a1, a2) == (Call::Sleep { ticks: a0 }),
        call::decoded(17, a0, a1, a2) == (Call::MkDir { path: a0 }),
        call::decoded(18, a0, a1, a2) == (Call::Link { path: a0, to: a1 }),
        call::decoded(19, a0, a1, a2) == (Call::Unlink { path: a0 }),
        call::decoded(20, a0, a1, a2) == (Call::Fstat { fd: a0 as i32, out: a1 }),
        call::decoded(21, a0, a1, a2) == Call::Yield,
        call::decoded(22, a0, a1, a2) == (Call::GetDents { path: a0, buf: a1, len: a2 }),
        call::decoded(23, a0, a1, a2) == Call::Shutdown,
        id == 0 || id > 23 ==> call::decoded(id, a0, a1, a2) == Call::Unknown,
{
}

proof fn lemma_str(m: MemV, root: u64, ptr: u64, s: Seq<u8>, max: int, i: int)
    requires
        holds(m, root, ptr, s.push(0)),
        forall|k: int| 0 <= k < s.len() ==> #[trigger] s[k] != 0,
        0 <= i <= s.len() < max,
    ensures
        text::str_len(m, root, ptr, max, i) == s.len(),
    decreases s.len() - i,
{
    let v = s.push(0);
    let u = (ptr + i) as u64;
    assert(space::umem(m, root, u) == Some(v[u - ptr]));
    if i < s.len() {
        assert(v[i] == s[i]);
        lemma_str(m, root, ptr, s, max, i + 1);
    }
}

/// A path in user memory is its bytes up to the zero that ends it.
pub proof fn law_path_is_read(m: MemV, root: u64, ptr: u64, s: Seq<u8>)
    requires
        ptr != 0,
        holds(m, root, ptr, s.push(0)),
        forall|k: int| 0 <= k < s.len() ==> #[trigger] s[k] != 0,
        s.len() < text::MAX_PATH,
        vstd::utf8::valid_utf8(s),
    ensures
        text::path_at(m, root, ptr) == Some(s),
        text::str_mapped(m, root, ptr, text::MAX_PATH as int),
{
    let v = s.push(0);
    lemma_str(m, root, ptr, s, text::MAX_PATH as int, 0);
    let t = text::str_at(m, root, ptr, text::MAX_PATH as int);
    assert forall|k: int| 0 <= k < s.len() implies t[k] == #[trigger] s[k] by {
        let u = (ptr + k) as u64;
        assert(space::umem(m, root, u) == Some(v[u - ptr]));
    }
    assert(t =~= s);
    assert forall|k: int| 0 <= k < text::MAX_PATH && k <= s.len() implies #[trigger] text::mapped(m, root, ptr, k) by {
        let u = (ptr + k) as u64;
        assert(space::umem(m, root, u) == Some(v[u - ptr]));
    }
}

pub proof fn lemma_caller(a: KernelV, h: int)
    requires
        follow::calls(a.s, h),
    ensures
        fd::busy(a.s, h),
        fd::table(a.s, h) == follow::fds(a.s, h),
        a.root(h) == own(a, h),
{
}

pub proof fn lemma_bytes(a: KernelV, h: int, ptr: u64, v: Seq<u8>)
    requires
        follow::calls(a.s, h),
        holds(a.m, own(a, h), ptr, v),
    ensures
        a.has(h, ptr, v.len() as int),
        a.bytes(h, ptr, v.len() as int) == v,
        text::range_reached(a.m, a.root(h), ptr, v.len() as int) == v.len(),
{
    lemma_caller(a, h);
    let n = v.len() as int;
    assert forall|k: int| 0 <= k < n implies #[trigger] text::mapped(a.m, a.root(h), ptr, k) by {
        let u = (ptr + k) as u64;
        assert(space::umem(a.m, own(a, h), u) == Some(v[u - ptr]));
    }
    let b = a.bytes(h, ptr, n);
    assert forall|k: int| 0 <= k < n implies #[trigger] b[k] == v[k] by {
        let u = (ptr + k) as u64;
        assert(space::umem(a.m, own(a, h), u) == Some(v[u - ptr]));
    }
    assert(b =~= v);
}

pub proof fn lemma_poked(m: MemV, n: MemV, root: u64, ptr: u64, v: Seq<u8>)
    requires
        serve::poked(m, n, root, ptr, v),
        ptr + v.len() <= VA_END,
    ensures
        stored(m, n, root, ptr, v),
{
    assert forall|u: u64| ptr <= u < ptr + v.len() implies #[trigger] space::umem(n, root, u) == Some(v[u - ptr]) by {}
}

/// What a program writes to the console is printed, byte for byte.
pub proof fn law_console_call(
    a: KernelV,
    b: KernelV,
    h: int,
    i: u64,
    buf: u64,
    v: Seq<u8>,
    held: Seq<u8>,
    now: u64,
    ksp: u64,
    r: ReplyV,
)
    requires
        follow::calls(a.s, h),
        i < NFD,
        follow::fds(a.s, h)[i as int].kind == 2,
        0 < v.len() <= u64::MAX,
        follow::fds(a.s, h)[i as int].off + v.len() <= usize::MAX,
        holds(a.m, own(a, h), buf, v),
        serve::served(a, b, h, call::decoded(6, i, buf, v.len() as u64), held, now, ksp, r),
    ensures
        b == a,
        r == (ReplyV::Print { bytes: v }),
{
    lemma_caller(a, h);
    lemma_bytes(a, h, buf, v);
    assert(serve::write_served(a, b, h, i as i32, buf, v.len() as int, r));
}

/// What a program writes to a file in memory is in the file, at the
/// descriptor's offset; the answer is how much.
pub proof fn law_file_write_call(
    a: KernelV,
    b: KernelV,
    h: int,
    i: u64,
    buf: u64,
    v: Seq<u8>,
    held: Seq<u8>,
    now: u64,
    ksp: u64,
    r: ReplyV,
)
    requires
        follow::calls(a.s, h),
        !a.k.fs.on_disk,
        i < NFD,
        follow::fds(a.s, h)[i as int].kind == 4,
        follow::fds(a.s, h)[i as int].path < a.k.reg.len(),
        a.k.fs.ram.file(a.k.reg[follow::fds(a.s, h)[i as int].path as int]) is Some,
        0 < v.len() <= u64::MAX,
        follow::fds(a.s, h)[i as int].off + v.len() <= usize::MAX,
        holds(a.m, own(a, h), buf, v),
        serve::served(a, b, h, call::decoded(6, i, buf, v.len() as u64), held, now, ksp, r),
    ensures
        ({
            let f = follow::fds(a.s, h)[i as int];
            let path = a.k.reg[f.path as int];
            let c = b.k.fs.ram.file(path)->0;
            &&& r == (ReplyV::Value { v: v.len() as int })
            &&& b.m == a.m
            &&& b.k.fs.ram.file(path) is Some
            &&& c.len() >= f.off + v.len()
            &&& c.subrange(f.off as int, f.off + v.len()) == v
            &&& follow::fds(b.s, h)[i as int].off == f.off + v.len()
        }),
{
    lemma_caller(a, h);
    lemma_bytes(a, h, buf, v);
    assert(serve::write_served(a, b, h, i as i32, buf, v.len() as int, r));
    follow::law_write_in_memory(a.s, a.k, h, i as i32, v, Seq::empty());
}

/// What a program reads of a file in memory is in its buffer: the file's bytes
/// from the descriptor's offset on, and nothing else of its memory changes.
pub proof fn law_file_read_call(
    a: KernelV,
    b: KernelV,
    h: int,
    i: u64,
    buf: u64,
    len: u64,
    v: Seq<u8>,
    held: Seq<u8>,
    now: u64,
    ksp: u64,
    r: ReplyV,
)
    requires
        follow::calls(a.s, h),
        !a.k.fs.on_disk,
        i < NFD,
        follow::fds(a.s, h)[i as int].kind == 4,
        follow::fds(a.s, h)[i as int].path < a.k.reg.len(),
        follow::fds(a.s, h)[i as int].off + len <= u64::MAX,
        a.k.fs.ram.file(a.k.reg[follow::fds(a.s, h)[i as int].path as int]) is Some,
        0 < len <= usize::MAX,
        v.len() == len,
        holds(a.m, own(a, h), buf, v),
        serve::served(a, b, h, call::decoded(5, i, buf, len), held, now, ksp, r),
    ensures
        ({
            let f = follow::fds(a.s, h)[i as int];
            let c = a.k.fs.ram.file(a.k.reg[f.path as int])->0;
            let n = r->n;
            &&& r is Took
            &&& 0 <= n <= len
            &&& f.off <= c.len() ==> f.off + n <= c.len() && (n == len || f.off + n == c.len())
            &&& f.off > c.len() ==> n == 0
            &&& n > 0 ==> stored(a.m, b.m, own(a, h), buf, c.subrange(f.off as int, f.off + n))
            &&& b.k == a.k
            &&& follow::fds(b.s, h)[i as int].off == f.off + n
        }),
{
    lemma_caller(a, h);
    assert(serve::read_served(a, b, h, i as i32, buf, len as int, held, r));
    let z = reach::blank(len as int);
    follow::law_read_in_memory(a.s, a.k, h, i as i32, held, z);
    let o = reach::read_of(a.s, a.k, h, i as i32, held, len as int);
    lemma_bytes(a, h, buf, v);
    assert forall|k: int| 0 <= k < o.n implies #[trigger] text::mapped(a.m, a.root(h), buf, k) by {}
    if o.n > 0 {
        assert(text::mapped(a.m, a.root(h), buf, o.n - 1));
        lemma_poked(a.m, b.m, own(a, h), buf, o.buf.take(o.n));
    }
}

/// A read that would put bytes where the program has no memory changes nothing.
pub proof fn law_fault_changes_nothing(
    a: KernelV,
    b: KernelV,
    h: int,
    id: u64,
    a0: u64,
    a1: u64,
    a2: u64,
    held: Seq<u8>,
    now: u64,
    ksp: u64,
    r: ReplyV,
)
    requires
        serve::served(a, b, h, call::decoded(id, a0, a1, a2), held, now, ksp, r),
        r is Fault,
    ensures
        b == a,
{
    serve::law_calls_keep_to_their_own(a, b, h, call::decoded(id, a0, a1, a2), held, now, ksp, r);
}

/// A program that opens a file in memory with the flag that truncates finds it
/// empty; one that opens it without finds it as it was.
pub proof fn law_open_call(
    a: KernelV,
    b: KernelV,
    h: int,
    ptr: u64,
    path: Seq<u8>,
    flags: u64,
    held: Seq<u8>,
    now: u64,
    ksp: u64,
    r: ReplyV,
)
    requires
        follow::calls(a.s, h),
        !a.k.fs.on_disk,
        a.k.reg.len() < u64::MAX,
        ptr != 0,
        holds(a.m, own(a, h), ptr, path.push(0)),
        forall|k: int| 0 <= k < path.len() ==> #[trigger] path[k] != 0,
        path.len() < text::MAX_PATH,
        vstd::utf8::valid_utf8(path),
        serve::served(a, b, h, call::decoded(10, ptr, flags, 0), held, now, ksp, r),
    ensures
        r is Value,
        ({
            let v = r->v;
            let t = flags as i32 & 0x200 != 0;
            &&& v >= 0 && t ==> b.k.fs.ram.file(path) == Some(Seq::<u8>::empty())
            &&& a.k.fs.ram.file(path) is Some && !t ==> b.k.fs == a.k.fs
            &&& a.k.fs.ram.file(path) is None && flags as i32 & 0x40 != 0 ==> b.k.fs.ram.file(path) == Some(
                Seq::<u8>::empty(),
            )
            &&& a.k.fs.ram.file(path) is None && flags as i32 & 0x40 == 0 ==> v == -1 && b == a
            &&& v >= 0 ==> 3 <= v < NFD && follow::fds(b.s, h)[v].kind == 4 && follow::fds(b.s, h)[v].off == 0
                && follow::fds(b.s, h)[v].path < b.k.reg.len() && b.k.reg[follow::fds(b.s, h)[v].path as int] == path
            &&& b.m == a.m
        }),
{
    lemma_caller(a, h);
    law_path_is_read(a.m, own(a, h), ptr, path);
    let f = flags as i32;
    assert(serve::open_served(a, b, h, ptr, f, r));
    follow::law_open_gives_a_descriptor(a.s, a.k, h, path, f);
    if f & 0x200 != 0 && file::open_call(a.s, a.k, h, Some(path), f).2 >= 0 {
        follow::law_open_truncates_in_memory(a.s, a.k, h, path, f, path);
    }
    if a.k.fs.ram.file(path) is None && f & 0x40 != 0 {
        follow::law_open_makes_in_memory(a.s, a.k, h, path, f, path);
    }
}

/// A pipe's two descriptors are in the program's memory, the end to read first,
/// four bytes each with the lowest first.
pub proof fn law_pipe_call(
    a: KernelV,
    b: KernelV,
    h: int,
    addr: u64,
    a1: u64,
    a2: u64,
    v: Seq<u8>,
    held: Seq<u8>,
    now: u64,
    ksp: u64,
    r: ReplyV,
)
    requires
        follow::calls(a.s, h),
        addr != 0,
        a.k.pipes.len() < u64::MAX,
        serve::served(a, b, h, call::decoded(4, addr, a1, a2), held, now, ksp, r),
        v.len() == 8,
        holds(a.m, own(a, h), addr, v),
        exists|x: int, y: int|
            3 <= x < y < NFD && (#[trigger] follow::fds(a.s, h)[x]).kind == 0 && (#[trigger] follow::fds(a.s, h)[y]).kind == 0,
    ensures
        r == (ReplyV::Value { v: 0 }),
        exists|x: u8, y: u8|
            3 <= x < y < NFD && #[trigger] follow::fds(b.s, h)[x as int].kind == 5 && #[trigger] follow::fds(
                b.s,
                h,
            )[y as int].kind == 6 && follow::fds(b.s, h)[x as int].path == follow::fds(b.s, h)[y as int].path && stored(
                a.m,
                b.m,
                own(a, h),
                addr,
                seq![x, 0u8, 0u8, 0u8, y, 0u8, 0u8, 0u8],
            ),
{
    lemma_caller(a, h);
    assert(serve::pipe_served(a, b, h, addr, r));
    follow::law_pipe_has_two_ends(a.s, a.k, h, addr);
    lemma_bytes(a, h, addr, v);
    let (x, y) = (file::pipe_call(a.s, a.k, h, addr).2)->0;
    let d = crate::fs::dev::le4(x as u32) + crate::fs::dev::le4(y as u32);
    assert(d =~= seq![x as u8, 0u8, 0u8, 0u8, y as u8, 0u8, 0u8, 0u8]);
    assert(text::mapped(a.m, a.root(h), addr, 7));
    lemma_poked(a.m, b.m, own(a, h), addr, d);
    assert(follow::fds(b.s, h)[(x as u8) as int].kind == 5);
    assert(follow::fds(b.s, h)[(y as u8) as int].kind == 6);
}

/// Calls that only answer: the caller's number, an end with its code, a sleep
/// with its ticks; giving way asks for a switch, and what is no call is refused.
pub proof fn law_plain_calls(
    a: KernelV,
    b: KernelV,
    h: int,
    id: u64,
    a0: u64,
    a1: u64,
    a2: u64,
    held: Seq<u8>,
    now: u64,
    ksp: u64,
    r: ReplyV,
)
    requires
        follow::calls(a.s, h),
        serve::served(a, b, h, call::decoded(id, a0, a1, a2), held, now, ksp, r),
    ensures
        id == 12 ==> b == a && r == (ReplyV::Value { v: a.s.current[h] as i64 as int }),
        id == 2 ==> b == a && r == (ReplyV::Leave { code: a0 as i32 }),
        id == 14 ==> b == a && r == (ReplyV::Sleep { ticks: a0 }),
        id == 21 ==> b == (KernelV { s: SchedV { yield_flag: a.s.yield_flag.update(h, true), ..a.s }, ..a }) && r == (
        ReplyV::Value { v: 0 }),
        id == 0 || id > 23 ==> b == a && r == (ReplyV::Value { v: -1 }),
        id == 23 ==> r is Off && b.s == a.s && b.m == a.m,
{
    law_numbers(a0, a1, a2, id);
}

/// A kill by number reaches the process that the caller means, which ends with
/// the code of a kill; 0 where there is one that had not ended, else -1.
pub proof fn law_kill_call(
    a: KernelV,
    b: KernelV,
    h: int,
    pid: u64,
    a1: u64,
    a2: u64,
    held: Seq<u8>,
    now: u64,
    ksp: u64,
    r: ReplyV,
)
    requires
        follow::calls(a.s, h),
        pid <= usize::MAX,
        serve::served(a, b, h, call::decoded(8, pid, a1, a2), held, now, ksp, r),
    ensures
        ({
            let t = a.s.target(h, pid as usize);
            let there = t < a.s.procs.len() && a.s.procs[t as int] is Some && !((a.s.procs[t as int]->0).state is Zombie);
            &&& r == (ReplyV::Value { v: if there { 0 } else { -1 } })
            &&& there ==> b.s.procs[t as int] is Some && (b.s.procs[t as int]->0).killed && (
            b.s.procs[t as int]->0).kill_code == -9
            &&& !there ==> b == a
            &&& b.k == a.k && b.m == a.m
            &&& forall|i: int| 0 <= i < a.s.procs.len() && i != t ==> #[trigger] b.s.procs[i] == a.s.procs[i]
        }),
{
    let t = a.s.target(h, pid as usize);
    family::law_kill_marks(a.s, t, crate::task::life::KILLED, h);
}

/// Moving the break up answers where it was and adds to it; every byte that was
/// there stays, and what is new reads as zero. Where there are frames enough
/// the whole of it is there.
pub proof fn law_break_call(
    a: KernelV,
    b: KernelV,
    h: int,
    inc: u64,
    a1: u64,
    a2: u64,
    held: Seq<u8>,
    now: u64,
    ksp: u64,
    r: ReplyV,
)
    requires
        follow::calls(a.s, h),
        0 < inc < 0x8000_0000,
        (a.s.procs[a.s.current[h] as int]->0).brk + inc <= VA_END,
        serve::served(a, b, h, call::decoded(13, inc, a1, a2), held, now, ksp, r),
        !(r is Fault),
    ensures
        ({
            let p = a.s.procs[a.s.current[h] as int]->0;
            let q = b.s.procs[a.s.current[h] as int]->0;
            &&& r == (ReplyV::Value { v: p.brk as i64 as int })
            &&& q == (ProcV { brk: (p.brk + inc) as u64, ..p })
            &&& forall|i: int|
                0 <= i < a.s.procs.len() && i != a.s.current[h] ==> #[trigger] b.s.procs[i] == a.s.procs[i]
            &&& forall|u: u64|
                u < VA_END && space::umem(a.m, p.root, u) is Some ==> #[trigger] space::umem(b.m, p.root, u)
                    == space::umem(a.m, p.root, u)
            &&& forall|u: u64|
                u < VA_END && space::umem(a.m, p.root, u) is None && (#[trigger] space::umem(b.m, p.root, u)) is Some
                    ==> space::umem(b.m, p.root, u) == Some(0u8) && p.brk - p.brk % 4096 <= u
            &&& space::user_need(
                a.m,
                p.root,
                (p.brk - p.brk % 4096) as u64,
                ((p.brk + inc + 4095) / 4096 - p.brk as int / 4096) as nat,
            ) <= a.m.fa.room(
                if a.s.active {
                    p.cg
                } else {
                    0
                },
            ) ==> forall|u: u64| p.brk <= u < p.brk + inc ==> (#[trigger] space::umem(b.m, p.root, u)) is Some
            &&& b.k == a.k
        }),
{
    lemma_caller(a, h);
    assert(serve::sbrk_served(a, b, h, inc as int, r));
    let p = a.s.procs[a.s.current[h] as int]->0;
    let start = pt::page_down(p.brk);
    let n = pt::span(p.brk, inc);
    assert forall|u: u64| p.brk <= u < p.brk + inc implies space::in_pages(start, n, u) by {}
}

/// A break that is asked where it is stays.
pub proof fn law_break_is_told(
    a: KernelV,
    b: KernelV,
    h: int,
    held: Seq<u8>,
    now: u64,
    ksp: u64,
    r: ReplyV,
)
    requires
        follow::calls(a.s, h),
        serve::served(a, b, h, call::decoded(13, 0, 0, 0), held, now, ksp, r),
    ensures
        b.s == a.s,
        b.m == a.m,
        r == (ReplyV::Value { v: (a.s.procs[a.s.current[h] as int]->0).brk as i64 as int }),
{
    lemma_caller(a, h);
    assert(serve::sbrk_served(a, b, h, 0, r));
}

} // verus!
