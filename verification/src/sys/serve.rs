//! Calls served whole: arguments out of user memory, results into it.
use crate::fs::dev;
use crate::fs::vfs;
use crate::mem::frame;
use crate::mem::frame::{Mem, MemV, PAGE_SIZE};
use crate::mem::pagetable as pt;
use crate::mem::space;
use crate::mem::space::VA_END;
use crate::sys::call;
use crate::sys::call::Call;
use crate::sys::fd;
use crate::sys::file;
use crate::sys::file::{Files, FilesV};
use crate::sys::guard;
use crate::sys::proc as calls;
use crate::sys::reach;
use crate::sys::text;
use crate::sys::text::MAX_PATH;
use crate::task::args;
use crate::task::elf;
use crate::task::image;
use crate::task::life;
use crate::task::proc;
use crate::task::start;
use crate::task::state;
use crate::task::state::{Sched, SchedV, MAX_HART, NFD};
use crate::task::wait;
use vstd::prelude::*;

verus! {

/// What calls work on.
pub struct Kernel {
    pub s: Sched,
    pub m: Mem,
    pub k: Files,
    /// Root of the kernel's own table.
    pub kroot: u64,
}

#[verifier::ext_equal]
pub struct KernelV {
    pub s: SchedV,
    pub m: MemV,
    pub k: FilesV,
    pub kroot: u64,
}

impl View for Kernel {
    type V = KernelV;

    open spec fn view(&self) -> KernelV {
        KernelV { s: self.s@, m: self.m@, k: self.k@, kroot: self.kroot }
    }
}

impl KernelV {
    /// The table of the process that the hart runs.
    pub open spec fn root(self, h: int) -> u64 {
        (self.s.running_on(h)->0).root
    }

    /// The user has these bytes.
    pub open spec fn has(self, h: int, ptr: u64, len: int) -> bool {
        text::range_mapped(self.m, self.root(h), ptr, len)
    }

    pub open spec fn bytes(self, h: int, ptr: u64, len: int) -> Seq<u8> {
        Seq::new(len as nat, |k: int| text::at(self.m, self.root(h), ptr, k))
    }

    /// A path can be read, or there is none.
    pub open spec fn has_path(self, h: int, ptr: u64) -> bool {
        ptr == 0 || text::str_mapped(self.m, self.root(h), ptr, MAX_PATH as int)
    }

    pub open spec fn path(self, h: int, ptr: u64) -> Option<Seq<u8>> {
        text::path_at(self.m, self.root(h), ptr)
    }
}

impl Kernel {
    /// Table, memory and files are in order.
    pub open spec fn sound(&self) -> bool {
        &&& self.s@.wf()
        &&& proc::mem_ok(self.s@, self.m@, self.kroot)
        &&& self.k.wf()
    }

    /// So they are, and the hart runs a process.
    pub open spec fn ok(&self, h: usize) -> bool {
        self.sound() && h < MAX_HART && fd::busy(self.s@, h as int)
    }
}

/// Two tables with the same processes in the same memory.
pub open spec fn same_shape(s: SchedV, t: SchedV) -> bool {
    &&& t.queues.len() == s.queues.len()
    &&& t.current == s.current
    &&& t.yield_flag.len() == s.yield_flag.len()
    &&& t.idle.len() == s.idle.len()
    &&& t.cpu.len() == s.cpu.len()
    &&& t.reaped == s.reaped
    &&& t.ns == s.ns
    &&& t.cg == s.cg
    &&& t.next_pid == s.next_pid
    &&& t.procs.len() == s.procs.len()
    &&& forall|i: int|
        0 <= i < s.procs.len() ==> match (s.procs[i], #[trigger] t.procs[i]) {
            (Some(p), Some(q)) => {
                &&& q.fds.len() == p.fds.len()
                &&& q.pid == p.pid
                &&& q.ns == p.ns
                &&& q.root == p.root
                &&& q.tf_pa == p.tf_pa
            },
            (None, None) => true,
            _ => false,
        }
}

proof fn lemma_shape(s: SchedV, t: SchedV, m: MemV, kroot: u64, h: int)
    requires
        s.wf(),
        proc::mem_ok(s, m, kroot),
        same_shape(s, t),
        0 <= h < MAX_HART,
        fd::busy(s, h),
    ensures
        t.wf(),
        proc::mem_ok(t, m, kroot),
        fd::busy(t, h),
        (t.running_on(h)->0).root == (s.running_on(h)->0).root,
{
    assert forall|i: int| #[trigger] proc::held(t, i) == proc::held(s, i) by {
        if 0 <= i < s.procs.len() {
            assert(t.procs[i] is Some == s.procs[i] is Some);
        }
    }
    proc::lemma_mem_same(s, t, m, kroot);
    assert forall|i: int| 0 <= i < t.procs.len() implies match #[trigger] t.procs[i] {
        Some(p) => p.fds.len() == NFD && p.pid == i && p.ns < t.ns.len(),
        None => true,
    } by {
        assert(s.procs[i] is Some || s.procs[i] is None);
    }
    let c = s.current[h] as int;
    assert(t.procs[c] is Some);
}

/// Another table of descriptors changes no memory.
proof fn lemma_table_shape(s: SchedV, h: int)
    requires
        s.wf(),
        fd::busy(s, h),
    ensures
        fd::table(s, h).len() == NFD,
        same_shape(s, s),
        forall|t: Seq<state::Fd>| t.len() == NFD ==> same_shape(s, #[trigger] fd::with_table(s, h, t)),
{
    let c = s.current[h] as int;
    assert(s.procs[c] is Some);
}

// ---- user memory ----

fn root_of(x: &Kernel, h: usize) -> (r: u64)
    requires
        x.ok(h),
    ensures
        r == x@.root(h as int),
        space::space_wf(x.m@, r),
{
    proof {
        let c = x.s@.current[h as int] as int;
        assert(proc::held(x.s@, c) is Some);
        assert(proc::one_ok(x.m@, x.kroot, proc::held(x.s@, c)->0));
    }
    match start::with_current(&x.s, h) {
        Some(p) => p.root,
        None => 0,
    }
}

/// Writes bytes that the user has.
fn put_user(x: &mut Kernel, h: usize, ptr: u64, data: &[u8])
    requires
        old(x).ok(h),
        old(x)@.has(h as int, ptr, data@.len() as int),
    ensures
        final(x).ok(h),
        final(x)@ == (KernelV { m: final(x)@.m, ..old(x)@ }),
        poked(old(x)@.m, final(x)@.m, old(x)@.root(h as int), ptr, data@),
{
    let root = root_of(x, h);
    let ghost m0 = x.m@;
    assert(old(x)@.m == m0 && old(x)@.root(h as int) == root);
    let n: usize = data.len();
    if n == 0 {
        proof {
            space::lemma_only_refl(m0, root);
            assert(space::with_bytes(m0, m0, root, ptr, data@));
        }
        return;
    }
    proof {
        assert(text::mapped(m0, root, ptr, n - 1));
        assert forall|u: u64| ptr <= u < ptr + data@.len() implies #[trigger] space::umem(m0, root, u) is Some by {
            assert(text::mapped(m0, root, ptr, u - ptr));
        }
    }
    space::write_bytes_to(&mut x.m, root, ptr, data);
    proof {
        image::lemma_seated_same(m0, x.m@, root, (proc::held(x.s@, x.s@.current[h as int] as int)->0).1);
        calls::lemma_mem_grown(x.s@, m0, x.m@, x.kroot, x.s@.current[h as int] as int);
    }
}

/// One space with bytes written to it.
pub open spec fn poked(m: MemV, n: MemV, root: u64, ptr: u64, data: Seq<u8>) -> bool {
    &&& n.fa == m.fa
    &&& space::space_only(m, n, root)
    &&& pt::same_leaves(m, n, root)
    &&& space::with_bytes(m, n, root, ptr, data)
}

fn push4(o: &mut Vec<u8>, v: u32)
    ensures
        final(o)@ == old(o)@ + dev::le4(v),
{
    o.push((v % 256) as u8);
    o.push((v / 0x100 % 256) as u8);
    o.push((v / 0x1_0000 % 256) as u8);
    o.push((v / 0x100_0000 % 256) as u8);
    assert(o@ =~= old(o)@ + dev::le4(v));
}

/// A path that a call names; the outer none where it cannot be read.
fn take_path(x: &Kernel, h: usize, ptr: u64) -> (r: Option<Option<Vec<u8>>>)
    requires
        x.ok(h),
    ensures
        match r {
            None => !x@.has_path(h as int, ptr),
            Some(p) => x@.has_path(h as int, ptr) && match p {
                Some(v) => x@.path(h as int, ptr) == Some(v@),
                None => x@.path(h as int, ptr) is None,
            },
        },
{
    let root = root_of(x, h);
    if ptr != 0 && !guard::str_ready(&x.m, root, ptr, MAX_PATH) {
        return None;
    }
    Some(text::user_str(&x.m, root, ptr))
}

// ---- what a call comes to ----

/// Reply to a call.
pub enum Reply {
    /// The call's result.
    Value { v: i64 },
    /// These bytes go to the console; their number is the result.
    Print { bytes: Vec<u8> },
    /// So many bytes were read, which is the result, and so many of those the
    /// chip held.
    Took { n: u64, used: u64 },
    /// The process ends.
    Leave { code: i32 },
    /// The process sleeps; the result is 0.
    Sleep { ticks: u64 },
    /// The machine goes off.
    Off,
    /// The call moves bytes in memory that the user does not have, or asks for
    /// more than there is room for in a number. Nothing happened.
    Fault,
}

#[verifier::ext_equal]
pub enum ReplyV {
    Value { v: int },
    Print { bytes: Seq<u8> },
    Took { n: int, used: int },
    Leave { code: i32 },
    Sleep { ticks: u64 },
    Off,
    Fault,
}

impl View for Reply {
    type V = ReplyV;

    open spec fn view(&self) -> ReplyV {
        match self {
            Reply::Value { v } => ReplyV::Value { v: *v as int },
            Reply::Print { bytes } => ReplyV::Print { bytes: bytes@ },
            Reply::Took { n, used } => ReplyV::Took { n: *n as int, used: *used as int },
            Reply::Leave { code } => ReplyV::Leave { code: *code },
            Reply::Sleep { ticks } => ReplyV::Sleep { ticks: *ticks },
            Reply::Off => ReplyV::Off,
            Reply::Fault => ReplyV::Fault,
        }
    }
}

/// Table, files and result, and memory as before.
pub open spec fn just(a: KernelV, b: KernelV, s: SchedV, k: FilesV, v: int, r: ReplyV) -> bool {
    b == (KernelV { s, k, ..a }) && r == (ReplyV::Value { v })
}

// ---- reading and writing ----

/// A read into user memory. Only the bytes that it moves have to be there.
pub open spec fn read_served(a: KernelV, b: KernelV, h: int, i: i32, buf: u64, len: int, held: Seq<u8>, r: ReplyV) -> bool {
    let o = reach::read_of(a.s, a.k, h, i, held, len);
    if !a.has(h, buf, o.n) || o.n > usize::MAX {
        b == a && r is Fault
    } else {
        &&& b == (KernelV { s: o.s, k: o.k, m: b.m, ..a })
        &&& poked(a.m, b.m, a.root(h), buf, o.buf.take(o.n))
        &&& r == (ReplyV::Took { n: o.n, used: o.used })
    }
}

fn serve_read(x: &mut Kernel, h: usize, i: i32, buf: u64, len: u64, held: &[u8]) -> (r: Reply)
    requires
        old(x).ok(h),
    ensures
        final(x).ok(h),
        read_served(old(x)@, final(x)@, h as int, i, buf, len as int, held@, r@),
{
    let want = reach::read_size(&x.s, &mut x.k, h, i, held, len);
    assert(x@ =~= old(x)@);
    let root = root_of(x, h);
    if !guard::range_ready(&x.m, root, buf, want) || want > usize::MAX as u64 {
        return Reply::Fault;
    }
    let room: usize = if want > 0 {
        want as usize
    } else if len > 0 {
        1
    } else {
        0
    };
    let mut v = reach::zeros(room);
    let ghost s0 = x.s@;
    let ghost o = reach::read_of(s0, old(x)@.k, h as int, i, held@, len as int);
    proof {
        reach::lemma_read_same(s0, old(x)@.k, h as int, i, held@, len as int, room as int);
    }
    let (n, used) = file::sys_read(&mut x.s, &mut x.k, h, i, held, v.as_mut_slice());
    proof {
        assert(same_shape(s0, o.s));
        lemma_shape(s0, x.s@, x.m@, x.kroot, h as int);
    }
    let got = vstd::slice::slice_subrange(v.as_slice(), 0, n);
    assert(got@ =~= o.buf.take(o.n));
    put_user(x, h, buf, got);
    Reply::Took { n: n as u64, used: used as u64 }
}

/// The write would move the descriptor past what a number can hold.
pub open spec fn too_far(a: KernelV, h: int, i: i32, len: int) -> bool {
    fd::fd_at(a.s, h, i) matches Some(f) && f.off + len > usize::MAX
}

/// A write out of user memory. Only the bytes that it fetches have to be there:
/// where one is not, the write must end before it, so that what is put in its
/// place does not matter.
pub open spec fn write_served(a: KernelV, b: KernelV, h: int, i: i32, buf: u64, len: int, r: ReplyV) -> bool {
    let n = reach::write_need(a.s, a.k, h, i, len);
    let p = text::range_reached(a.m, a.root(h), buf, n);
    if too_far(a, h, i, n) || (p < n && !reach::ends_with(a.s, a.k, h, i, a.bytes(h, buf, p))) {
        b == a && r is Fault
    } else {
        let src = if p < n {
            a.bytes(h, buf, p).push(0)
        } else {
            a.bytes(h, buf, n)
        };
        let o = file::write_call(a.s, a.k, h, i, src);
        &&& b == (KernelV { s: o.s, k: o.k, ..a })
        &&& r == if o.console {
            ReplyV::Print { bytes: src }
        } else {
            ReplyV::Value { v: o.n }
        }
    }
}

fn serve_write(x: &mut Kernel, h: usize, i: i32, buf: u64, len: u64) -> (r: Reply)
    requires
        old(x).ok(h),
    ensures
        final(x).ok(h),
        write_served(old(x)@, final(x)@, h as int, i, buf, len as int, r@),
{
    let want = reach::write_size(&x.s, &mut x.k, h, i, len);
    assert(x@ =~= old(x)@);
    if let Some(f) = fd::get(&x.s, h, i) {
        if f.off > usize::MAX as u64 || want > usize::MAX as u64 - f.off {
            return Reply::Fault;
        }
    }
    let root = root_of(x, h);
    let there = guard::reached(&x.m, root, buf, want);
    let mut v = guard::user_range(&x.m, root, buf, there);
    assert(v@ =~= x@.bytes(h as int, buf, there as int));
    proof {
        if there > 0 {
            assert(text::mapped(x.m@, root, buf, there - 1));
        }
    }
    if there < want {
        if !reach::write_ends(&x.s, &x.k, h, i, v.as_slice()) {
            return Reply::Fault;
        }
        v.push(0);
    }
    let ghost s0 = x.s@;
    let (n, console) = file::sys_write(&mut x.s, &mut x.k, h, i, v.as_slice());
    proof {
        lemma_table_shape(s0, h as int);
        assert(same_shape(s0, x.s@));
        lemma_shape(s0, x.s@, x.m@, x.kroot, h as int);
    }
    if console {
        Reply::Print { bytes: v }
    } else {
        Reply::Value { v: n as i64 }
    }
}

// ---- calls with a path ----

/// Opening a path in user memory.
pub open spec fn open_served(a: KernelV, b: KernelV, h: int, ptr: u64, flags: i32, r: ReplyV) -> bool {
    if !a.has_path(h, ptr) {
        b == a && r is Fault
    } else {
        let (s, k, v) = file::open_call(a.s, a.k, h, a.path(h, ptr), flags);
        just(a, b, s, k, v, r)
    }
}

fn serve_open(x: &mut Kernel, h: usize, ptr: u64, flags: i32) -> (r: Reply)
    requires
        old(x).ok(h),
    ensures
        final(x).ok(h),
        open_served(old(x)@, final(x)@, h as int, ptr, flags, r@),
{
    let p = match take_path(x, h, ptr) {
        Some(p) => p,
        None => {
            return Reply::Fault;
        },
    };
    let ghost s0 = x.s@;
    let v = match &p {
        Some(v) => file::sys_open(&mut x.s, &mut x.k, h, Some(v.as_slice()), flags),
        None => file::sys_open(&mut x.s, &mut x.k, h, None, flags),
    };
    proof {
        let (s1, k1, v1) = file::open_call(s0, old(x)@.k, h as int, old(x)@.path(h as int, ptr), flags);
        assert(x.s@ == s1);
        fd::lemma_first_free(fd::table(s0, h as int), fd::FIRST as int);
        lemma_table_shape(s0, h as int);
        assert(same_shape(s0, x.s@));
        lemma_shape(s0, x.s@, x.m@, x.kroot, h as int);
    }
    Reply::Value { v }
}

/// What a change of the file system answers.
pub open spec fn answer(ok: bool) -> int {
    if ok {
        0
    } else {
        -1
    }
}

pub open spec fn mkdir_served(a: KernelV, b: KernelV, h: int, ptr: u64, r: ReplyV) -> bool {
    if !a.has_path(h, ptr) {
        b == a && r is Fault
    } else {
        match a.path(h, ptr) {
            Some(p) => {
                let (fs, ok) = a.k.fs.with_dir(p);
                just(a, b, a.s, FilesV { fs, ..a.k }, answer(ok), r)
            },
            None => just(a, b, a.s, a.k, -1, r),
        }
    }
}

fn serve_mkdir(x: &mut Kernel, h: usize, ptr: u64) -> (r: Reply)
    requires
        old(x).ok(h),
    ensures
        final(x).ok(h),
        mkdir_served(old(x)@, final(x)@, h as int, ptr, r@),
{
    let p = match take_path(x, h, ptr) {
        Some(p) => p,
        None => {
            return Reply::Fault;
        },
    };
    let v = match &p {
        Some(v) => file::sys_mkdir(&mut x.k, Some(v.as_slice())),
        None => file::sys_mkdir(&mut x.k, None),
    };
    Reply::Value { v }
}

pub open spec fn unlink_served(a: KernelV, b: KernelV, h: int, ptr: u64, r: ReplyV) -> bool {
    if !a.has_path(h, ptr) {
        b == a && r is Fault
    } else {
        match a.path(h, ptr) {
            Some(p) => {
                let (fs, ok) = a.k.fs.without(p);
                just(a, b, a.s, FilesV { fs, ..a.k }, answer(ok), r)
            },
            None => just(a, b, a.s, a.k, -1, r),
        }
    }
}

fn serve_unlink(x: &mut Kernel, h: usize, ptr: u64) -> (r: Reply)
    requires
        old(x).ok(h),
    ensures
        final(x).ok(h),
        unlink_served(old(x)@, final(x)@, h as int, ptr, r@),
{
    let p = match take_path(x, h, ptr) {
        Some(p) => p,
        None => {
            return Reply::Fault;
        },
    };
    let v = match &p {
        Some(v) => file::sys_unlink(&mut x.k, Some(v.as_slice())),
        None => file::sys_unlink(&mut x.k, None),
    };
    Reply::Value { v }
}

pub open spec fn link_served(a: KernelV, b: KernelV, h: int, from: u64, to: u64, r: ReplyV) -> bool {
    if !a.has_path(h, from) || (a.path(h, from) is Some && !a.has_path(h, to)) {
        b == a && r is Fault
    } else {
        match (a.path(h, from), a.path(h, to)) {
            (Some(p), Some(q)) => {
                let (fs, ok) = a.k.fs.linked(p, q);
                just(a, b, a.s, FilesV { fs, ..a.k }, answer(ok), r)
            },
            _ => just(a, b, a.s, a.k, -1, r),
        }
    }
}

fn serve_link(x: &mut Kernel, h: usize, from: u64, to: u64) -> (r: Reply)
    requires
        old(x).ok(h),
    ensures
        final(x).ok(h),
        link_served(old(x)@, final(x)@, h as int, from, to, r@),
{
    let p = match take_path(x, h, from) {
        Some(p) => p,
        None => {
            return Reply::Fault;
        },
    };
    if p.is_none() {
        return Reply::Value { v: -1 };
    }
    let q = match take_path(x, h, to) {
        Some(q) => q,
        None => {
            return Reply::Fault;
        },
    };
    let v = match (&p, &q) {
        (Some(v), Some(w)) => file::sys_link(&mut x.k, Some(v.as_slice()), Some(w.as_slice())),
        _ => -1,
    };
    Reply::Value { v }
}

// ---- calls that report through user memory ----

/// Listing a directory into user memory. Only the bytes of the names that fit
/// have to be there.
pub open spec fn getdents_served(a: KernelV, b: KernelV, h: int, ptr: u64, buf: u64, len: int, r: ReplyV) -> bool {
    if buf == 0 {
        just(a, b, a.s, a.k, -1, r)
    } else if !a.has_path(h, ptr) {
        b == a && r is Fault
    } else {
        match a.path(h, ptr) {
            Some(p) => {
                let (c, d) = file::packed(a.k.fs.names(p), 0, len);
                if !a.has(h, buf, d.len() as int) {
                    b == a && r is Fault
                } else {
                    &&& b == (KernelV { m: b.m, ..a })
                    &&& poked(a.m, b.m, a.root(h), buf, d)
                    &&& r == (ReplyV::Value { v: c })
                }
            },
            None => just(a, b, a.s, a.k, -1, r),
        }
    }
}

fn serve_getdents(x: &mut Kernel, h: usize, ptr: u64, buf: u64, len: u64) -> (r: Reply)
    requires
        old(x).ok(h),
    ensures
        final(x).ok(h),
        getdents_served(old(x)@, final(x)@, h as int, ptr, buf, len as int, r@),
{
    if buf == 0 {
        return Reply::Value { v: -1 };
    }
    let p = match take_path(x, h, ptr) {
        Some(p) => p,
        None => {
            return Reply::Fault;
        },
    };
    match &p {
        Some(q) => {
            let names = vfs::list_dir(&mut x.k.fs, q.as_slice());
            assert(x@ =~= old(x)@);
            let (c, d) = file::pack(&names, len);
            let root = root_of(x, h);
            if !guard::range_ready(&x.m, root, buf, d.len() as u64) {
                return Reply::Fault;
            }
            put_user(x, h, buf, d.as_slice());
            proof {
                file::lemma_packed_count(old(x)@.k.fs.names(q@), 0, len as int);
                if d@.len() > 0 {
                    assert(text::mapped(old(x)@.m, root, buf, d@.len() - 1));
                }
            }
            Reply::Value { v: c as i64 }
        },
        None => Reply::Value { v: -1 },
    }
}

/// The status of a descriptor into user memory.
pub open spec fn fstat_served(a: KernelV, b: KernelV, h: int, i: i32, out: u64, r: ReplyV) -> bool {
    match file::fstat_call(a.s, a.k, h, i, out) {
        None => just(a, b, a.s, a.k, -1, r),
        Some((kind, size, names)) => if !a.has(h, out, 12) {
            b == a && r is Fault
        } else {
            &&& b == (KernelV { m: b.m, ..a })
            &&& poked(
                a.m,
                b.m,
                a.root(h),
                out,
                dev::le4(kind) + dev::le4(size) + dev::le4(names),
            )
            &&& r == (ReplyV::Value { v: 0 })
        },
    }
}

fn serve_fstat(x: &mut Kernel, h: usize, i: i32, out: u64) -> (r: Reply)
    requires
        old(x).ok(h),
    ensures
        final(x).ok(h),
        fstat_served(old(x)@, final(x)@, h as int, i, out, r@),
{
    let st = file::sys_fstat(&x.s, &mut x.k, h, i, out);
    assert(x@ =~= old(x)@);
    match st {
        None => Reply::Value { v: -1 },
        Some((kind, size, names)) => {
            let root = root_of(x, h);
            if !guard::range_ready(&x.m, root, out, 12) {
                return Reply::Fault;
            }
            let mut o: Vec<u8> = Vec::new();
            push4(&mut o, kind);
            push4(&mut o, size);
            push4(&mut o, names);
            assert(o@ =~= dev::le4(kind) + dev::le4(size) + dev::le4(names));
            put_user(x, h, out, o.as_slice());
            Reply::Value { v: 0 }
        },
    }
}

/// A pipe, with its two descriptors into user memory.
pub open spec fn pipe_served(a: KernelV, b: KernelV, h: int, addr: u64, r: ReplyV) -> bool {
    let (s, k, o) = file::pipe_call(a.s, a.k, h, addr);
    if o is Some && !a.has(h, addr, 8) {
        b == a && r is Fault
    } else {
        match o {
            None => just(a, b, s, k, -1, r),
            Some((x, y)) => {
                &&& b == (KernelV { s, k, m: b.m, ..a })
                &&& poked(a.m, b.m, a.root(h), addr, dev::le4(x as u32) + dev::le4(y as u32))
                &&& r == (ReplyV::Value { v: 0 })
            },
        }
    }
}

fn serve_pipe(x: &mut Kernel, h: usize, addr: u64) -> (r: Reply)
    requires
        old(x).ok(h),
    ensures
        final(x).ok(h),
        pipe_served(old(x)@, final(x)@, h as int, addr, r@),
{
    if addr == 0 {
        return Reply::Value { v: -1 };
    }
    let root = root_of(x, h);
    let ghost s0 = x.s@;
    proof {
        lemma_table_shape(s0, h as int);
        reach::lemma_two_free(s0, old(x)@.k, h as int, addr);
    }
    if reach::pipe_ready(&x.s, h) && !guard::range_ready(&x.m, root, addr, 8) {
        return Reply::Fault;
    }
    let o = file::sys_pipe(&mut x.s, &mut x.k, h, addr);
    proof {
        let id = old(x)@.k.pipes.len() as int;
        let (t1, r1) = file::pipe_end(fd::table(s0, h as int), fd::FD_PIPE_R, id);
        let (t2, r2) = file::pipe_end(t1, fd::FD_PIPE_W, id);
        assert(x.s@ == fd::with_table(s0, h as int, t2));
        fd::lemma_first_free(fd::table(s0, h as int), fd::FIRST as int);
        fd::lemma_first_free(t1, fd::FIRST as int);
        lemma_table_shape(s0, h as int);
        assert(same_shape(s0, x.s@));
        lemma_shape(s0, x.s@, x.m@, x.kroot, h as int);
    }
    match o {
        None => Reply::Value { v: -1 },
        Some((a, b)) => {
            let mut d: Vec<u8> = Vec::new();
            push4(&mut d, a as u32);
            push4(&mut d, b as u32);
            assert(d@ =~= dev::le4(a as u32) + dev::le4(b as u32));
            put_user(x, h, addr, d.as_slice());
            Reply::Value { v: 0 }
        },
    }
}

// ---- calls on processes ----

/// There is another number for a process.
pub open spec fn can_number(s: SchedV) -> bool {
    &&& s.next_pid < usize::MAX
    &&& s.next_pid <= i64::MAX
    &&& forall|i: int| 0 <= i < s.ns.len() ==> (#[trigger] s.ns[i]).next < usize::MAX
}

fn numbers_left(s: &Sched) -> (r: bool)
    ensures
        r == can_number(s@),
{
    if s.next_pid >= usize::MAX || s.next_pid as u64 > i64::MAX as u64 {
        return false;
    }
    let mut i: usize = 0;
    while i < s.ns.len()
        invariant
            i <= s.ns@.len(),
            forall|j: int| 0 <= j < i ==> (#[trigger] s.ns@[j]).next < usize::MAX,
        decreases s.ns@.len() - i,
    {
        if s.ns[i].next >= usize::MAX {
            assert(!(s@.ns[i as int].next < usize::MAX));
            return false;
        }
        i += 1;
    }
    true
}

/// A fork: the child's number, or -1.
pub open spec fn fork_served(a: KernelV, b: KernelV, h: int, now: u64, r: ReplyV) -> bool {
    if !can_number(a.s) {
        b == a && r is Fault
    } else {
        &&& b == (KernelV { s: b.s, m: b.m, ..a })
        &&& r matches ReplyV::Value { v } && proc::fork_done(
            a.s,
            a.m,
            b.s,
            b.m,
            a.kroot,
            a.s.current[h],
            h,
            now,
            if v == -1 {
                usize::MAX
            } else {
                v as usize
            },
        )
    }
}

fn serve_fork(x: &mut Kernel, h: usize, now: u64) -> (r: Reply)
    requires
        old(x).ok(h),
    ensures
        final(x).sound(),
        fork_served(old(x)@, final(x)@, h as int, now, r@),
{
    if !numbers_left(&x.s) {
        return Reply::Fault;
    }
    let c = calls::sys_fork(&mut x.s, &mut x.m, x.kroot, h, now);
    if c == usize::MAX {
        Reply::Value { v: -1 }
    } else {
        Reply::Value { v: c as i64 }
    }
}

/// A wait finds a child whose code is to go to user memory.
pub open spec fn reports(a: KernelV, h: int, addr: u64) -> bool {
    let p = a.s.running_on(h)->0;
    addr != 0 && (a.s.ended(p.ns, wait::ANY_CHILD, p.children, 0) matches Some(c) && calls::wait_answer(c as i32)
        >= 0)
}

/// A wait for any child; its code goes to user memory if there is a place for
/// it. The place has to be there only where there is a code to report.
pub open spec fn wait_served(a: KernelV, b: KernelV, h: int, addr: u64, r: ReplyV) -> bool {
    if reports(a, h, addr) && !a.has(h, addr, 4) {
        b == a && r is Fault
    } else {
        &&& b == (KernelV { s: b.s, m: b.m, ..a })
        &&& exists|m1: MemV, v: i64, code: i32| #[trigger]
            calls::wait_done(a.s, a.m, b.s, m1, h, v, code) && r == (ReplyV::Value { v: v as int })
                && if reports(a, h, addr) && fd::busy(b.s, h) {
                poked(m1, b.m, a.root(h), addr, dev::le4(code as u32))
            } else {
                b.m == m1
            }
    }
}

/// The end of a child leaves the memory of the hart's process.
proof fn lemma_reaped(s0: SchedV, m0: MemV, s: SchedV, m: MemV, kroot: u64, h: int, c: usize)
    requires
        s0.wf(),
        proc::mem_ok(s0, m0, kroot),
        fd::busy(s0, h),
        s0.proc(c as int) is Some,
        s == s0.reap(s0.current[h] as int, c),
        fd::busy(s, h),
        ({
            let q = s0.procs[c as int]->0;
            &&& forall|t: u64| #[trigger]
                m.free(t) <==> m0.free(t) || space::owns(m0, q.root, t) || t == q.tf_pa
            &&& forall|t: u64|
                frame::in_ram(t) && !m.free(t) ==> #[trigger] m.ram[frame::fi(t)] == m0.ram[frame::fi(t)]
        }),
    ensures
        (s.running_on(h)->0).root == (s0.running_on(h)->0).root,
        forall|va: u64|
            va < VA_END ==> #[trigger] space::umem(m, (s0.running_on(h)->0).root, va) == space::umem(
                m0,
                (s0.running_on(h)->0).root,
                va,
            ),
{
    let p = s0.current[h] as int;
    let q = s0.procs[c as int]->0;
    let root = (s0.running_on(h)->0).root;
    assert(p != c);
    assert(proc::held(s0, p) is Some && proc::held(s0, c as int) is Some);
    assert(proc::two_ok(m0, proc::held(s0, p)->0, proc::held(s0, c as int)->0));
    assert(proc::one_ok(m0, kroot, proc::held(s0, p)->0));
    assert forall|t: u64| #[trigger] space::owns(m0, root, t) implies m.ram[frame::fi(t)] == m0.ram[frame::fi(t)]
        && !m.free(t) by {
        space::lemma_owned_live(m0, root, t);
        assert(m.free(t) <==> m0.free(t) || space::owns(m0, q.root, t) || t == q.tf_pa);
    }
    space::lemma_space_kept(m0, m, root);
}

fn serve_wait(x: &mut Kernel, h: usize, addr: u64) -> (r: Reply)
    requires
        old(x).ok(h),
    ensures
        final(x).sound(),
        wait_served(old(x)@, final(x)@, h as int, addr, r@),
{
    let root = root_of(x, h);
    let pid = life::current_pid(&x.s, h);
    let kid = wait::ended_child(&x.s, pid);
    let told: bool = match kid {
        Some(c) => addr != 0 && c as i32 >= 0,
        None => false,
    };
    assert(told == reports(x@, h as int, addr));
    if told && !guard::range_ready(&x.m, root, addr, 4) {
        return Reply::Fault;
    }
    let ghost a = x@;
    let (v, code) = calls::sys_wait(&mut x.s, &mut x.m, x.kroot, h);
    let ghost y = x@;
    assert(calls::wait_done(a.s, a.m, y.s, y.m, h as int, v, code));
    if told && start::with_current(&x.s, h).is_some() {
        proof {
            lemma_reaped(a.s, a.m, y.s, y.m, x.kroot, h as int, kid->0);
            assert forall|k: int| 0 <= k < 4 implies #[trigger] text::mapped(y.m, root, addr, k) by {
                assert(text::mapped(a.m, root, addr, k));
            }
        }
        let mut d: Vec<u8> = Vec::new();
        push4(&mut d, code as u32);
        assert(d@ =~= dev::le4(code as u32));
        put_user(x, h, addr, d.as_slice());
        assert(KernelV { m: y.m, ..x@ } =~= y);
        assert(calls::wait_done(a.s, a.m, x@.s, y.m, h as int, v, code));
    }
    Reply::Value { v }
}

/// A program that cannot be loaded: its pages are the kernel's, or it has
/// pages that nobody may read, write or execute.
pub open spec fn misplaced(file: Option<Seq<u8>>) -> bool {
    file matches Some(d) && elf::elf_ok(d) && !proc::loadable(d)
}

/// Another program for the process, with arguments out of user memory and an
/// empty environment.
pub open spec fn exec_served(a: KernelV, b: KernelV, h: int, path: u64, argv: u64, ksp: u64, r: ReplyV) -> bool {
    let file = calls::file_of(a.k.fs, a.path(h, path));
    if !a.has_path(h, path) {
        b == a && r is Fault
    } else if a.path(h, path) is None {
        just(a, b, a.s, a.k, -1, r)
    } else if argv != 0 && !text::args_mapped(a.m, a.root(h), argv) {
        b == a && r is Fault
    } else if misplaced(file) {
        just(a, b, a.s, a.k, -1, r)
    } else {
        &&& b == (KernelV { s: b.s, m: b.m, ..a })
        &&& r matches ReplyV::Value { v } && calls::exec_answer(
            a.s,
            a.m,
            b.s,
            b.m,
            a.kroot,
            h,
            file,
            text::args_at(a.m, a.root(h), argv),
            Seq::empty(),
            ksp,
            v,
        )
    }
}

fn placed(x: &mut Kernel, path: Option<&[u8]>) -> (r: bool)
    requires
        old(x).k.wf(),
    ensures
        final(x)@ == old(x)@,
        final(x).k.wf(),
        r == !misplaced(calls::file_of(old(x)@.k.fs, calls::opt_bytes(path))),
{
    let d = match path {
        Some(p) => vfs::read_file(&mut x.k.fs, p),
        None => None,
    };
    assert(x@ =~= old(x)@);
    match d {
        None => true,
        Some(d) => match elf::parse(d.as_slice()) {
            None => true,
            Some(info) => image::image_ok(&info, d.len()),
        },
    }
}

fn serve_exec(x: &mut Kernel, h: usize, path: u64, argv: u64, ksp: u64) -> (r: Reply)
    requires
        old(x).ok(h),
    ensures
        final(x).sound(),
        exec_served(old(x)@, final(x)@, h as int, path, argv, ksp, r@),
{
    let p = match take_path(x, h, path) {
        Some(p) => p,
        None => {
            return Reply::Fault;
        },
    };
    if p.is_none() {
        return Reply::Value { v: -1 };
    }
    let root = root_of(x, h);
    if argv != 0 && !guard::args_ready(&x.m, root, argv) {
        return Reply::Fault;
    }
    let av = text::copy_args(&x.m, root, argv);
    let env: Vec<Vec<u8>> = Vec::new();
    let q: Option<&[u8]> = match &p {
        Some(v) => Some(v.as_slice()),
        None => None,
    };
    if !placed(x, q) {
        return Reply::Value { v: -1 };
    }
    let v = calls::sys_exec(&mut x.s, &mut x.m, &mut x.k.fs, x.kroot, h, q, &av, &env, ksp);
    proof {
        assert(args::strs_of(av@) =~= text::args_at(old(x)@.m, root, argv));
        assert(args::strs_of(env@) =~= Seq::<Seq<u8>>::empty());
        assert(x@.k =~= old(x)@.k);
    }
    Reply::Value { v }
}

/// A growth of the break that meets the kernel's pages or the end of memory.
pub open spec fn blocked(a: KernelV, h: int, inc: int) -> bool {
    inc > 0 && !calls::can_grow(a.m, a.s.running_on(h)->0, inc)
}

/// A move of the break: the old one.
pub open spec fn sbrk_served(a: KernelV, b: KernelV, h: int, inc: int, r: ReplyV) -> bool {
    if blocked(a, h, inc) {
        b == a && r is Fault
    } else {
        let old_brk = (a.s.running_on(h)->0).brk;
        &&& b == (KernelV { s: b.s, m: b.m, ..a })
        &&& calls::sbrk_done(a.s, a.m, b.s, b.m, h, inc, old_brk)
        &&& r == (ReplyV::Value { v: old_brk as i64 as int })
    }
}

fn growth_ready(x: &Kernel, h: usize, inc: u64) -> (r: bool)
    requires
        x.ok(h),
        0 < inc <= i32::MAX,
    ensures
        r == calls::can_grow(x.m@, x.s@.running_on(h as int)->0, inc as int),
{
    let root = root_of(x, h);
    let brk: u64 = match start::with_current(&x.s, h) {
        Some(p) => p.brk,
        None => 0,
    };
    if brk > VA_END - inc {
        return false;
    }
    let first: u64 = brk - brk % PAGE_SIZE;
    let n: u64 = (brk + inc + PAGE_SIZE - 1) / PAGE_SIZE - brk / PAGE_SIZE;
    assert(n == pt::span(brk, inc));
    let mut i: u64 = 0;
    while i < n
        invariant
            x.ok(h),
            root == x@.root(h as int),
            space::space_wf(x.m@, root),
            first == pt::page_down(brk),
            brk == (x.s@.running_on(h as int)->0).brk,
            brk + inc <= VA_END,
            n == pt::span(brk, inc),
            n == (brk + inc + PAGE_SIZE - 1) / (PAGE_SIZE as int) - brk / PAGE_SIZE,
            i <= n,
            inc <= i32::MAX,
            forall|j: nat|
                j < i && pt::translation(x.m@, root, #[trigger] pt::page_va(first, j)) is Some ==> pt::user(
                    pt::leaf_at(x.m@, root, pt::page_va(first, j)),
                ),
        decreases n - i,
    {
        let u: u64 = first + i * PAGE_SIZE;
        assert(u == pt::page_va(first, i as nat));
        if pt::translate(&x.m, root, u).is_some() && !guard::byte_ready(&x.m, root, u) {
            proof {
                pt::lemma_flag_consts();
                assert(!pt::user(pt::leaf_at(x.m@, root, pt::page_va(first, i as nat))));
                assert(!space::user_range(x.m@, root, first, pt::span(brk, inc)));
            }
            return false;
        }
        i += 1;
    }
    true
}

fn serve_sbrk(x: &mut Kernel, h: usize, inc: i32) -> (r: Reply)
    requires
        old(x).ok(h),
    ensures
        final(x).sound(),
        sbrk_served(old(x)@, final(x)@, h as int, inc as int, r@),
{
    if inc > 0 && !growth_ready(x, h, inc as u64) {
        return Reply::Fault;
    }
    let b = calls::sys_sbrk(&mut x.s, &mut x.m, x.kroot, h, inc);
    Reply::Value { v: b as i64 }
}

fn serve_kill(x: &mut Kernel, h: usize, pid: usize) -> (r: Reply)
    requires
        old(x).ok(h),
    ensures
        final(x).sound(),
        ({
            let t = old(x)@.s.target(h as int, pid) as int;
            let (s, ok) = old(x)@.s.kill_with(t, life::KILLED, h as int);
            just(old(x)@, final(x)@, s, old(x)@.k, answer(ok), r@)
        }),
{
    let ghost s0 = x.s@;
    let v = calls::sys_kill(&mut x.s, h, pid);
    proof {
        assert(same_shape(s0, x.s@));
        lemma_shape(s0, x.s@, x.m@, x.kroot, h as int);
    }
    Reply::Value { v }
}

// ---- all calls ----

/// What a call does and answers.
pub open spec fn served(
    a: KernelV,
    b: KernelV,
    h: int,
    c: Call,
    held: Seq<u8>,
    now: u64,
    ksp: u64,
    r: ReplyV,
) -> bool {
    match c {
        Call::Fork => fork_served(a, b, h, now, r),
        Call::Exit { code } => b == a && r == (ReplyV::Leave { code }),
        Call::Wait { addr } => wait_served(a, b, h, addr, r),
        Call::Pipe { addr } => pipe_served(a, b, h, addr, r),
        Call::Read { fd, buf, len } => read_served(a, b, h, fd, buf, len as int, held, r),
        Call::Write { fd, buf, len } => write_served(a, b, h, fd, buf, len as int, r),
        Call::Close { fd } => {
            let (s, v) = fd::closed(a.s, h, fd);
            just(a, b, s, a.k, v, r)
        },
        Call::Kill { pid } => {
            let t = a.s.target(h, pid as usize) as int;
            let (s, ok) = a.s.kill_with(t, life::KILLED, h);
            just(a, b, s, a.k, answer(ok), r)
        },
        Call::Exec { path, argv } => exec_served(a, b, h, path, argv, ksp, r),
        Call::Open { path, flags } => open_served(a, b, h, path, flags, r),
        Call::Dup { fd } => {
            let (s, v) = fd::doubled(a.s, h, fd);
            just(a, b, s, a.k, v, r)
        },
        Call::GetPid => just(a, b, a.s, a.k, a.s.current[h] as i64 as int, r),
        Call::Sbrk { inc } => sbrk_served(a, b, h, inc as int, r),
        Call::Sleep { ticks } => b == a && r == (ReplyV::Sleep { ticks }),
        Call::MkNod => just(a, b, a.s, a.k, 0, r),
        Call::ChDir => just(a, b, a.s, a.k, 0, r),
        Call::MkDir { path } => mkdir_served(a, b, h, path, r),
        Call::Link { path, to } => link_served(a, b, h, path, to, r),
        Call::Unlink { path } => unlink_served(a, b, h, path, r),
        Call::Fstat { fd, out } => fstat_served(a, b, h, fd, out, r),
        Call::Yield => just(a, b, file::yielding(a.s, h), a.k, 0, r),
        Call::GetDents { path, buf, len } => getdents_served(a, b, h, path, buf, len as int, r),
        Call::Shutdown => b == (KernelV { k: FilesV { fs: a.k.fs.left(), ..a.k }, ..a }) && r is Off,
        Call::Unknown => just(a, b, a.s, a.k, -1, r),
    }
}

/// Serves a call of the hart's process. `held` is what the chip holds of the
/// console's input, `ksp` the kernel stack a program starts with.
pub fn handle(
    x: &mut Kernel,
    h: usize,
    id: u64,
    a0: u64,
    a1: u64,
    a2: u64,
    held: &[u8],
    now: u64,
    ksp: u64,
) -> (r: Reply)
    requires
        old(x).ok(h),
    ensures
        final(x).sound(),
        served(
            old(x)@,
            final(x)@,
            h as int,
            call::decoded(id, a0, a1, a2),
            held@,
            now,
            ksp,
            r@,
        ),
{
    let ghost s0 = x.s@;
    match call::decode(id, a0, a1, a2) {
        Call::Fork => serve_fork(x, h, now),
        Call::Exit { code } => Reply::Leave { code },
        Call::Wait { addr } => serve_wait(x, h, addr),
        Call::Pipe { addr } => serve_pipe(x, h, addr),
        Call::Read { fd, buf, len } => serve_read(x, h, fd, buf, len, held),
        Call::Write { fd, buf, len } => serve_write(x, h, fd, buf, len),
        Call::Close { fd } => {
            let v = fd::sys_close(&mut x.s, h, fd);
            proof {
                lemma_table_shape(s0, h as int);
                lemma_shape(s0, x.s@, x.m@, x.kroot, h as int);
            }
            Reply::Value { v }
        },
        Call::Kill { pid } => serve_kill(x, h, pid as usize),
        Call::Exec { path, argv } => serve_exec(x, h, path, argv, ksp),
        Call::Open { path, flags } => serve_open(x, h, path, flags),
        Call::Dup { fd } => {
            let v = fd::sys_dup(&mut x.s, h, fd);
            proof {
                lemma_table_shape(s0, h as int);
                fd::lemma_first_free(fd::table(s0, h as int), 0);
                lemma_shape(s0, x.s@, x.m@, x.kroot, h as int);
            }
            Reply::Value { v }
        },
        Call::GetPid => Reply::Value { v: life::current_pid(&x.s, h) as i64 },
        Call::Sbrk { inc } => serve_sbrk(x, h, inc),
        Call::Sleep { ticks } => Reply::Sleep { ticks },
        Call::MkNod => Reply::Value { v: 0 },
        Call::ChDir => Reply::Value { v: 0 },
        Call::MkDir { path } => serve_mkdir(x, h, path),
        Call::Link { path, to } => serve_link(x, h, path, to),
        Call::Unlink { path } => serve_unlink(x, h, path),
        Call::Fstat { fd, out } => serve_fstat(x, h, fd, out),
        Call::Yield => {
            life::yield_now(&mut x.s, h);
            proof {
                assert(same_shape(s0, x.s@));
                lemma_shape(s0, x.s@, x.m@, x.kroot, h as int);
            }
            Reply::Value { v: 0 }
        },
        Call::GetDents { path, buf, len } => serve_getdents(x, h, path, buf, len),
        Call::Shutdown => {
            let _ = vfs::leave(&mut x.k.fs);
            assert(x@ =~= KernelV { k: FilesV { fs: old(x)@.k.fs.left(), ..old(x)@.k }, ..old(x)@ });
            Reply::Off
        },
        Call::Unknown => Reply::Value { v: -1 },
    }
}

/// Whatever a call does, it leaves the files alone unless it is one on files,
/// and memory alone unless it reports through it or is one on processes.
#[verifier::spinoff_prover]
#[verifier::rlimit(60)]
pub proof fn law_calls_keep_to_their_own(
    a: KernelV,
    b: KernelV,
    h: int,
    c: Call,
    held: Seq<u8>,
    now: u64,
    ksp: u64,
    r: ReplyV,
)
    requires
        served(a, b, h, c, held, now, ksp, r),
    ensures
        b.kroot == a.kroot,
        c is Fork || c is Wait || c is Exec || c is Sbrk || c is Kill || c is GetPid || c is Yield || c is Close
            || c is Dup || c is Fstat || c is GetDents ==> b.k == a.k,
        c is Write || c is Open || c is Close || c is Dup || c is MkDir || c is Link || c is Unlink || c is Kill
            || c is Yield || c is GetPid ==> b.m == a.m,
        r is Fault || r is Leave || r is Sleep ==> b == a,
        r is Off ==> b.s == a.s && b.m == a.m,
{
    match c {
        Call::Exec { path, argv } => {
            assert(exec_served(a, b, h, path, argv, ksp, r));
        },
        Call::Wait { addr } => {
            assert(wait_served(a, b, h, addr, r));
        },
        Call::Read { fd, buf, len } => {
            assert(read_served(a, b, h, fd, buf, len as int, held, r));
        },
        Call::Sbrk { inc } => {
            assert(sbrk_served(a, b, h, inc as int, r));
        },
        _ => {},
    }
}

} // verus!
