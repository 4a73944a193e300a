//! Making, replacing and reaping processes: what happens to the table and to
//! memory together.
use crate::mem::frame;
use crate::mem::frame::{Mem, MemV, PAGE_SIZE, WORDS};
use crate::mem::kernel;
use crate::mem::pagetable as pt;
use crate::mem::space;
use crate::mem::space::VA_END;
use crate::mem::teardown;
use crate::task::args;
use crate::task::elf;
use crate::task::image;
use crate::task::life;
use crate::task::need;
use crate::task::sched;
use crate::task::state;
use crate::task::state::{
    Fd, Ns, Proc, ProcV, Sched, SchedV, State, MAX_HART, NFD, TRAPFRAME_VA, USER_STACK_PAGES,
    USER_STACK_TOP,
};
use vstd::prelude::*;

verus! {

// ---- whose memory is whose ----

/// Root and frame of saved registers of the process with this id.
pub open spec fn held(s: SchedV, i: int) -> Option<(u64, u64)> {
    match s.proc(i) {
        Some(p) => Some((p.root, p.tf_pa)),
        None => None,
    }
}

/// A root and a frame of saved registers that a process can run with: the
/// space has that frame and the kernel's pages where they belong, and no frame
/// is the space's and also the kernel's or that one.
pub open spec fn one_ok(m: MemV, kroot: u64, h: (u64, u64)) -> bool {
    &&& space::space_wf(m, h.0)
    &&& image::seated(m, h.0, h.1)
    &&& m.live(h.1)
    &&& !space::owns(m, h.0, h.1)
    &&& space::apart(m, h.0, kroot)
    &&& !space::owns(m, kroot, h.1)
}

pub open spec fn two_ok(m: MemV, a: (u64, u64), b: (u64, u64)) -> bool {
    &&& space::apart(m, a.0, b.0)
    &&& a.1 != b.1
    &&& !space::owns(m, a.0, b.1)
    &&& !space::owns(m, b.0, a.1)
}

/// The kernel's tables map RAM and device registers to themselves, and nothing
/// else.
pub open spec fn kernel_map(m: MemV, kroot: u64) -> bool {
    forall|u: u64|
        u < VA_END && u % PAGE_SIZE == 0 ==> #[trigger] pt::leaf_at(m, kroot, u) == kernel::kernel_leaf(u)
}

/// The memory of every process is well formed, and no frame belongs to two
/// of them or to one and the kernel.
pub open spec fn mem_ok(s: SchedV, m: MemV, kroot: u64) -> bool {
    &&& m.wf()
    &&& space::space_wf(m, kroot)
    &&& kernel_map(m, kroot)
    &&& forall|i: int| (#[trigger] held(s, i)) is Some ==> one_ok(m, kroot, held(s, i)->0)
    &&& forall|i: int, j: int|
        i != j && (#[trigger] held(s, i)) is Some && (#[trigger] held(s, j)) is Some ==> two_ok(
            m,
            held(s, i)->0,
            held(s, j)->0,
        )
}

proof fn lemma_kernel_map(m: MemV, n: MemV, kroot: u64)
    requires
        kernel_map(m, kroot),
        pt::same_leaves(m, n, kroot),
    ensures
        kernel_map(n, kroot),
{
    assert forall|u: u64| u < VA_END && u % PAGE_SIZE == 0 implies #[trigger] pt::leaf_at(n, kroot, u)
        == kernel::kernel_leaf(u) by {
        space::lemma_indices(u);
        assert(pt::leaf_at(m, kroot, u) == kernel::kernel_leaf(u));
    }
}

/// What is in use stays: so do all processes' memories.
pub proof fn lemma_mem_kept(s: SchedV, m: MemV, n: MemV, kroot: u64)
    requires
        mem_ok(s, m, kroot),
        n.wf(),
        kernel::keeps_live(m, n),
    ensures
        mem_ok(s, n, kroot),
{
    image::lemma_live_kept(m, n, kroot);
    lemma_kernel_map(m, n, kroot);
    assert forall|i: int| (#[trigger] held(s, i)) is Some implies one_ok(n, kroot, held(s, i)->0) by {
        let h = held(s, i)->0;
        image::lemma_live_kept(m, n, h.0);
        image::lemma_seated_same(m, n, h.0, h.1);
        assert(n.ram[frame::fi(h.1)] == m.ram[frame::fi(h.1)] && !n.free(h.1));
        assert forall|t: u64| #[trigger] space::owns(n, h.0, t) implies !space::owns(n, kroot, t) by {
            assert(space::owns(m, h.0, t));
        }
    }
    assert forall|i: int, j: int|
        i != j && (#[trigger] held(s, i)) is Some && (#[trigger] held(s, j)) is Some implies two_ok(
        n,
        held(s, i)->0,
        held(s, j)->0,
    ) by {
        let a = held(s, i)->0;
        let b = held(s, j)->0;
        image::lemma_live_kept(m, n, a.0);
        image::lemma_live_kept(m, n, b.0);
        assert forall|t: u64| #[trigger] space::owns(n, a.0, t) implies !space::owns(n, b.0, t) by {
            assert(space::owns(m, a.0, t));
        }
    }
}

/// A process with freshly built memory joins.
pub proof fn lemma_mem_join(s: SchedV, s2: SchedV, m: MemV, n: MemV, kroot: u64, c: int)
    requires
        mem_ok(s, m, kroot),
        held(s, c) is None,
        held(s2, c) matches Some(h) && image::built(m, n, h.0, h.1) && m.free(h.1) && image::seated(n, h.0, h.1),
        forall|i: int| i != c ==> #[trigger] held(s2, i) == held(s, i),
    ensures
        mem_ok(s2, n, kroot),
{
    lemma_mem_kept(s, m, n, kroot);
    let h = held(s2, c)->0;
    image::lemma_live_kept(m, n, kroot);
    assert forall|i: int| (#[trigger] held(s2, i)) is Some implies one_ok(n, kroot, held(s2, i)->0) by {
        if i == c {
            assert forall|t: u64| #[trigger] space::owns(n, h.0, t) implies !space::owns(n, kroot, t) by {
                assert(m.free(t));
                if space::owns(m, kroot, t) {
                    space::lemma_owned_live(m, kroot, t);
                }
            }
            if space::owns(m, kroot, h.1) {
                space::lemma_owned_live(m, kroot, h.1);
            }
        } else {
            assert(held(s, i) is Some);
        }
    }
    assert forall|i: int, j: int|
        i != j && (#[trigger] held(s2, i)) is Some && (#[trigger] held(s2, j)) is Some implies two_ok(
        n,
        held(s2, i)->0,
        held(s2, j)->0,
    ) by {
        if i != c && j != c {
            assert(held(s, i) is Some && held(s, j) is Some);
        } else {
            let k = if i == c {
                j
            } else {
                i
            };
            assert(held(s, k) is Some);
            let o = held(s, k)->0;
            lemma_fresh_two(m, n, o, h, kroot);
        }
    }
}

proof fn lemma_fresh_two(m: MemV, n: MemV, o: (u64, u64), h: (u64, u64), kroot: u64)
    requires
        m.wf(),
        one_ok(m, kroot, o),
        image::built(m, n, h.0, h.1),
        m.free(h.1),
    ensures
        two_ok(n, o, h),
        two_ok(n, h, o),
{
    image::lemma_live_kept(m, n, o.0);
    assert forall|t: u64| #[trigger] space::owns(n, o.0, t) implies !space::owns(n, h.0, t) by {
        assert(space::owns(m, o.0, t));
        space::lemma_owned_live(m, o.0, t);
    }
    assert forall|t: u64| #[trigger] space::owns(n, h.0, t) implies !space::owns(n, o.0, t) by {
        assert(space::owns(n, o.0, t) ==> !space::owns(n, h.0, t));
    }
    if space::owns(n, o.0, h.1) {
        assert(space::owns(m, o.0, h.1));
        space::lemma_owned_live(m, o.0, h.1);
    }
}

/// A process's memory is given back and the process leaves.
pub proof fn lemma_mem_leave(s: SchedV, s2: SchedV, m: MemV, k: MemV, n: MemV, kroot: u64, c: int)
    requires
        mem_ok(s, m, kroot),
        held(s, c) matches Some(h) && teardown::after_free(
            m,
            k,
            |t: u64| teardown::gives_back(m, h.0, t),
        ) && k.live(h.1) && n == k.dealloc(h.1) && n.wf(),
        held(s2, c) is None,
        forall|i: int| i != c ==> #[trigger] held(s2, i) == held(s, i),
    ensures
        mem_ok(s2, n, kroot),
        forall|t: u64| #[trigger]
            n.free(t) <==> m.free(t) || space::owns(m, (held(s, c)->0).0, t) || t == (held(s, c)->0).1,
        forall|t: u64|
            frame::in_ram(t) && !n.free(t) ==> #[trigger] n.ram[frame::fi(t)] == m.ram[frame::fi(t)],
{
    let h = held(s, c)->0;
    let back = |t: u64| teardown::gives_back(m, h.0, t);
    assert(one_ok(m, kroot, h));
    frame::law_dealloc(k, h.1);
    assert forall|t: u64| #[trigger] n.free(t) <==> m.free(t) || space::owns(m, h.0, t) || t == h.1 by {
        teardown::lemma_back_owns(m, h.0, t);
        assert(k.free(t) <==> m.free(t) || back(t));
        assert(n.free(t) <==> k.free(t) || t == h.1);
    }
    assert forall|t: u64| frame::in_ram(t) && !n.free(t) implies #[trigger] n.ram[frame::fi(t)]
        == m.ram[frame::fi(t)] by {
        teardown::lemma_back_owns(m, h.0, t);
        assert(n.free(t) <==> m.free(t) || space::owns(m, h.0, t) || t == h.1);
        assert(!back(t));
        assert(k.ram[frame::fi(t)] == m.ram[frame::fi(t)]);
        pt::lemma_fi_inj(t, h.1);
    }
    lemma_space_stays(m, n, kroot, h);
    lemma_kernel_map(m, n, kroot);
    assert forall|i: int| (#[trigger] held(s2, i)) is Some implies one_ok(n, kroot, held(s2, i)->0) by {
        assert(i != c);
        assert(held(s, i) is Some);
        let o = held(s, i)->0;
        assert(two_ok(m, o, h));
        lemma_space_stays(m, n, o.0, h);
        image::lemma_seated_same(m, n, o.0, o.1);
        assert(!n.free(o.1));
        assert forall|t: u64| #[trigger] space::owns(n, o.0, t) implies !space::owns(n, kroot, t) by {
            assert(space::owns(m, o.0, t));
        }
    }
    assert forall|i: int, j: int|
        i != j && (#[trigger] held(s2, i)) is Some && (#[trigger] held(s2, j)) is Some implies two_ok(
        n,
        held(s2, i)->0,
        held(s2, j)->0,
    ) by {
        assert(i != c && j != c);
        assert(held(s, i) is Some && held(s, j) is Some);
        let a = held(s, i)->0;
        let b = held(s, j)->0;
        assert(two_ok(m, a, h) && two_ok(m, b, h) && two_ok(m, a, b));
        lemma_space_stays(m, n, a.0, h);
        lemma_space_stays(m, n, b.0, h);
        assert forall|t: u64| #[trigger] space::owns(n, a.0, t) implies !space::owns(n, b.0, t) by {
            assert(space::owns(m, a.0, t));
        }
    }
}

/// A space apart from the memory that went back is what it was.
proof fn lemma_space_stays(m: MemV, n: MemV, root: u64, h: (u64, u64))
    requires
        m.wf(),
        space::space_wf(m, root),
        space::space_wf(m, h.0),
        space::apart(m, root, h.0) || space::apart(m, h.0, root),
        !space::owns(m, root, h.1),
        forall|t: u64| #[trigger] n.free(t) <==> m.free(t) || space::owns(m, h.0, t) || t == h.1,
        forall|t: u64|
            frame::in_ram(t) && !n.free(t) ==> #[trigger] n.ram[frame::fi(t)] == m.ram[frame::fi(t)],
    ensures
        space::space_wf(n, root),
        pt::same_leaves(m, n, root),
        forall|t: u64| #[trigger] space::owns(n, root, t) == space::owns(m, root, t),
        forall|va: u64| va < VA_END ==> #[trigger] space::umem(n, root, va) == space::umem(m, root, va),
{
    assert forall|t: u64| #[trigger] space::owns(m, root, t) implies n.ram[frame::fi(t)] == m.ram[frame::fi(
        t,
    )] && !n.free(t) by {
        space::lemma_owned_live(m, root, t);
        assert(!space::owns(m, h.0, t));
        assert(!n.free(t));
    }
    space::lemma_space_kept(m, n, root);
}

// ---- new processes ----

impl SchedV {
    /// The next id is taken and has a slot.
    pub open spec fn reserved(self) -> SchedV {
        SchedV {
            next_pid: (self.next_pid + 1) as usize,
            procs: if self.procs.len() <= self.next_pid {
                self.procs + Seq::new(
                    (self.next_pid + 1 - self.procs.len()) as nat,
                    |i: int| None::<ProcV>,
                )
            } else {
                self.procs
            },
            ..self
        }
    }

    /// Some process lives in namespace `i`.
    pub open spec fn ns_used(self, i: int) -> bool {
        exists|j: int|
            0 <= j < self.procs.len() && (#[trigger] self.procs[j] matches Some(p) && p.ns == i)
    }

    /// The first namespace from `from` on that nobody lives in; a new one if
    /// there is none.
    pub open spec fn free_ns(self, from: int) -> int
        decreases self.ns.len() - from,
    {
        if from >= self.ns.len() || !self.ns_used(from) {
            from
        } else {
            self.free_ns(from + 1)
        }
    }

    /// Where a child of `parent` goes: namespace, id in it, and the table with
    /// both accounted for. A pending namespace is founded and its first id
    /// given; in the root the id is the process id; elsewhere the next one.
    pub open spec fn placed(self, parent: int, p: ProcV, child: usize) -> (SchedV, usize, usize) {
        if p.pending_ns {
            let i = self.free_ns(1);
            let n = Ns { parent: p.ns, next: 2 };
            let ns = if i < self.ns.len() {
                self.ns.update(i, n)
            } else {
                self.ns.push(n)
            };
            (
                SchedV { ns, ..self }.with_proc(parent, ProcV { pending_ns: false, ..p }),
                i as usize,
                1,
            )
        } else if p.ns == 0 {
            (self, 0, child)
        } else {
            let n = self.ns[p.ns as int];
            (
                SchedV {
                    ns: self.ns.update(
                        p.ns as int,
                        Ns { parent: n.parent, next: (n.next + 1) as usize },
                    ),
                    ..self
                },
                p.ns,
                n.next,
            )
        }
    }

    /// The table with a forked child, queued on hart `hq`.
    pub open spec fn forked(self, parent: int, child: usize, root: u64, tf: u64, hq: int, now: u64) -> SchedV {
        let p = self.procs[parent]->0;
        let (s1, ns, lpid) = self.placed(parent, p, child);
        let c = ProcV {
            pid: child,
            parent: parent as usize,
            state: State::Runnable,
            exit_code: 0,
            root,
            tf_pa: tf,
            children: Seq::empty(),
            killed: false,
            kill_code: life::KILLED,
            blocked_on: 0,
            wake_at: 0,
            traced: false,
            ns,
            lpid,
            pending_ns: false,
            start_ms: now,
            ..p
        };
        let s2 = s1.with_proc(child as int, c);
        let q = s2.procs[parent]->0;
        s2.with_proc(parent, ProcV { children: q.children.push(child), ..q }).enqueue(child, hq)
    }
}

/// Takes the next process id and a slot for it.
fn reserve(s: &mut Sched) -> (pid: usize)
    requires
        old(s)@.next_pid < usize::MAX,
    ensures
        pid == old(s)@.next_pid,
        final(s)@ == old(s)@.reserved(),
{
    let pid: usize = s.next_pid;
    s.next_pid = pid + 1;
    let ghost s0 = old(s)@;
    assert(s@.procs =~= s0.procs);
    while s.procs.len() <= pid
        invariant
            s0 == old(s)@,
            pid == s0.next_pid,
            pid < usize::MAX,
            s@ == (SchedV { next_pid: (pid + 1) as usize, procs: s@.procs, ..s0 }),
            s@.procs.len() >= s0.procs.len(),
            s@.procs.len() <= pid + 1 || s@.procs.len() == s0.procs.len(),
            s@.procs == s0.procs + Seq::new(
                (s@.procs.len() - s0.procs.len()) as nat,
                |i: int| None::<ProcV>,
            ),
        decreases pid + 1 - s@.procs.len(),
    {
        let ghost s1 = s@;
        s.procs.push(None);
        proof {
            assert(s@.procs =~= s1.procs.push(None));
            assert(s@.procs =~= s0.procs + Seq::new(
                (s@.procs.len() - s0.procs.len()) as nat,
                |i: int| None::<ProcV>,
            ));
            assert(s@.queues =~= s0.queues);
        }
    }
    assert(s@.procs =~= s0.reserved().procs);
    pid
}

pub fn clone_bytes(v: &Vec<u8>) -> (r: Vec<u8>)
    ensures
        r@ == v@,
{
    let mut r: Vec<u8> = Vec::new();
    let mut i: usize = 0;
    while i < v.len()
        invariant
            i <= v@.len(),
            r@ == v@.take(i as int),
        decreases v@.len() - i,
    {
        r.push(v[i]);
        i += 1;
        assert(r@ =~= v@.take(i as int));
    }
    assert(v@.take(i as int) =~= v@);
    r
}

fn ns_used(s: &Sched, i: usize) -> (r: bool)
    ensures
        r == s@.ns_used(i as int),
{
    let mut j: usize = 0;
    while j < s.procs.len()
        invariant
            j <= s.procs@.len(),
            forall|k: int|
                0 <= k < j ==> !((#[trigger] s@.procs[k]) matches Some(p) && p.ns == i),
        decreases s.procs@.len() - j,
    {
        assert(s@.procs[j as int] == state::opt_proc(s.procs@[j as int]));
        if let Some(p) = &s.procs[j] {
            if p.ns == i {
                return true;
            }
        }
        j += 1;
    }
    false
}

fn free_ns(s: &Sched) -> (i: usize)
    requires
        s@.ns.len() >= 1,
    ensures
        i == s@.free_ns(1),
        i <= s@.ns.len(),
{
    let mut i: usize = 1;
    while i < s.ns.len()
        invariant
            1 <= i <= s@.ns.len(),
            s@.free_ns(1) == s@.free_ns(i as int),
        decreases s@.ns.len() - i,
    {
        if !ns_used(s, i) {
            return i;
        }
        i += 1;
    }
    i
}

fn place(s: &mut Sched, parent: usize, child: usize) -> (r: (usize, usize))
    requires
        old(s)@.wf(),
        old(s)@.proc(parent as int) is Some,
        forall|i: int| 0 <= i < old(s)@.ns.len() ==> (#[trigger] old(s)@.ns[i]).next < usize::MAX,
    ensures
        (final(s)@, r.0, r.1) == old(s)@.placed(
            parent as int,
            old(s)@.procs[parent as int]->0,
            child,
        ),
        r.0 < final(s)@.ns.len(),
        final(s)@.ns.len() >= old(s)@.ns.len(),
{
    let ghost s0 = s@;
    let ghost p0 = s0.procs[parent as int]->0;
    assert(s@.procs[parent as int] == state::opt_proc(s.procs@[parent as int]));
    let (pns, pending) = match &s.procs[parent] {
        Some(p) => (p.ns, p.pending_ns),
        None => (0, false),
    };
    if pending {
        let i = free_ns(s);
        if let Some(pp) = &mut s.procs[parent] {
            pp.pending_ns = false;
        }
        let n = Ns { parent: pns, next: 2 };
        if i < s.ns.len() {
            s.ns.set(i, n);
        } else {
            s.ns.push(n);
        }
        proof {
            let t = s0.placed(parent as int, p0, child).0;
            assert(s@.procs[parent as int]->0 =~= ProcV { pending_ns: false, ..p0 });
            assert(s@.procs =~= t.procs);
            assert(s@.queues =~= t.queues);
        }
        (i, 1)
    } else if pns == 0 {
        (0, child)
    } else {
        let n = s.ns[pns];
        s.ns.set(pns, Ns { parent: n.parent, next: n.next + 1 });
        proof {
            let t = s0.placed(parent as int, p0, child).0;
            assert(s@.procs =~= t.procs);
            assert(s@.queues =~= t.queues);
        }
        (pns, n.next)
    }
}

/// What a fork leads to: the child's number, or `usize::MAX` when there is no
/// room. The child has a copy of the parent's memory and registers, and its
/// own result is 0.
pub open spec fn fork_done(
    s0: SchedV,
    m0: MemV,
    s: SchedV,
    m: MemV,
    kroot: u64,
    parent_pid: usize,
    h: int,
    now: u64,
    r: usize,
) -> bool {
    let p = s0.procs[parent_pid as int]->0;
    let room = m0.fa.room(p.cg);
    &&& kernel::keeps_live(m0, m)
    &&& r != usize::MAX <==> image::space_cost(m0, kroot) + image::copy_cost(m0, kroot, p.root) <= room
    &&& r == usize::MAX ==> s == if image::space_cost(m0, kroot) <= room {
        s0.reserved()
    } else {
        s0
    }
    &&& r == usize::MAX ==> image::given_back(m0, m)
    &&& r != usize::MAX ==> {
        let c = s.procs[r as int]->0;
        &&& r == s0.next_pid
        &&& s == s0.reserved().forked(
            parent_pid as int,
            r,
            c.root,
            c.tf_pa,
            h,
            now,
        )
        &&& image::built(m0, m, c.root, c.tf_pa)
        &&& m0.free(c.tf_pa)
        &&& m.ram[frame::fi(c.tf_pa)] == m0.ram[frame::fi(p.tf_pa)].update(10, 0)
        &&& image::seated(m, c.root, c.tf_pa)
        &&& forall|va: u64|
            va < VA_END ==> #[trigger] space::umem(m, c.root, va) == space::umem(
                m0,
                p.root,
                va,
            )
        &&& forall|va: u64|
            va < VA_END ==> #[trigger] image::uflags(m, c.root, va) == image::uflags(m0, p.root, va)
    }
}

/// A copy of a seated space is seated.
proof fn lemma_fork_seated(m0: MemV, m: MemV, kroot: u64, src: u64, src_tf: u64, root: u64, tf: u64)
    requires
        kernel_map(m0, kroot),
        image::seated(m0, src, src_tf),
        frame::in_ram(src_tf),
        space::space_wf(m0, src),
        image::blank_elsewhere(m0, m, kroot, src, root, tf),
        forall|va: u64| va < VA_END ==> #[trigger] image::uflags(m, root, va) == image::uflags(m0, src, va),
    ensures
        image::seated(m, root, tf),
{
    image::lemma_tf_leaf(src_tf);
    pt::lemma_flag_consts();
    space::lemma_indices(TRAPFRAME_VA);
    assert forall|u: u64|
        u < VA_END && u % PAGE_SIZE == 0 && kernel::kernel_leaf(u) != 0 implies #[trigger] pt::leaf_at(m, root, u)
        == kernel::kernel_leaf(u) by {
        space::lemma_indices(u);
        space::lemma_same_page(u, TRAPFRAME_VA);
        image::lemma_kernel_leaf(u);
        assert(pt::leaf_at(m0, kroot, u) == kernel::kernel_leaf(u));
        assert(pt::leaf_at(m0, src, u) == kernel::kernel_leaf(u));
    }
    assert forall|u: u64|
        u < VA_END && u % PAGE_SIZE == 0 && pt::translation(m, root, u) is Some && image::clear_page(
            u,
        ) implies pt::user(#[trigger] pt::leaf_at(m, root, u)) by {
        space::lemma_indices(u);
        space::lemma_same_page(u, TRAPFRAME_VA);
        assert(pt::page_down(u) == u);
        let e = pt::leaf_at(m0, src, u);
        if space::ul(e) {
            assert(space::upage(m0, src, pt::vpn_of(u, 2), pt::vpn_of(u, 1), pt::vpn_of(u, 0)));
            image::lemma_protected(e, 0);
            assert(image::uflags(m, root, u) == image::uflags(m0, src, u));
        } else {
            assert(pt::leaf_at(m0, kroot, u) == kernel::kernel_leaf(u));
        }
    }
}

/// Forks a process: the child has a copy of its memory and registers with 0
/// for the returned value, and inherits files, directories and group. Returns
/// the child's id, or `usize::MAX` when a frame cannot be had; the id is spent
/// then if the child's space could be made at all.
#[verifier::spinoff_prover]
#[verifier::rlimit(60)]
pub fn fork(s: &mut Sched, m: &mut Mem, kroot: u64, parent_pid: usize, h: usize, now: u64) -> (r: usize)
    requires
        old(s)@.wf(),
        mem_ok(old(s)@, old(m)@, kroot),
        old(s)@.proc(parent_pid as int) is Some,
        old(s)@.next_pid < usize::MAX,
        forall|i: int| 0 <= i < old(s)@.ns.len() ==> (#[trigger] old(s)@.ns[i]).next < usize::MAX,
        h < MAX_HART,
    ensures
        final(s)@.wf(),
        mem_ok(final(s)@, final(m)@, kroot),
        fork_done(old(s)@, old(m)@, final(s)@, final(m)@, kroot, parent_pid, h as int, now, r),
{
    let ghost s0 = s@;
    let ghost m0 = m@;
    let ghost p0 = s0.procs[parent_pid as int]->0;
    assert(s@.procs[parent_pid as int] == state::opt_proc(s.procs@[parent_pid as int]));
    assert(held(s0, parent_pid as int) == Some((p0.root, p0.tf_pa)));
    assert(one_ok(m0, kroot, (p0.root, p0.tf_pa)));
    let (p_root, p_tf, p_cg) = match &s.procs[parent_pid] {
        Some(p) => (p.root, p.tf_pa, p.cg),
        None => (0, 0, 0),
    };
    let (made, ok) = image::fork_space(m, kroot, p_root, p_tf, p_cg);
    let (root, tf) = match made {
        Some(q) => q,
        None => {
            if ok {
                let _ = reserve(s);
                proof {
                    lemma_reserved_wf(s0);
                    lemma_reserved_held(s0);
                    lemma_mem_same(s0, s@, m0, kroot);
                }
            }
            proof {
                lemma_mem_kept(s@, m0, m@, kroot);
            }
            return usize::MAX;
        },
    };
    let child = reserve(s);
    let ghost s1 = s@;
    proof {
        lemma_reserved_wf(s0);
        assert(s1.procs[parent_pid as int] == s0.procs[parent_pid as int]);
    }
    let (ns, lpid) = place(s, parent_pid, child);
    let ghost s2 = s@;
    let ghost q0 = s2.procs[parent_pid as int]->0;
    assert(s@.procs[parent_pid as int] == state::opt_proc(s.procs@[parent_pid as int]));
    let proc = match &s.procs[parent_pid] {
        Some(p) => Some(
            Proc {
                pid: child,
                parent: parent_pid,
                state: State::Runnable,
                exit_code: 0,
                root,
                tf_pa: tf,
                brk: p.brk,
                fds: p.fds,
                children: Vec::new(),
                name: clone_bytes(&p.name),
                killed: false,
                kill_code: life::KILLED,
                blocked_on: 0,
                wake_at: 0,
                cwd: clone_bytes(&p.cwd),
                fsroot: clone_bytes(&p.fsroot),
                mmap_base: p.mmap_base,
                brk_min: p.brk_min,
                traced: false,
                cg: p.cg,
                ns,
                lpid,
                pending_ns: false,
                start_ms: now,
            },
        ),
        None => None,
    };
    s.procs.set(child, proc);
    let ghost s3 = s@;
    proof {
        let c = state::opt_proc(proc)->0;
        assert(s3.procs =~= s2.procs.update(child as int, Some(c)));
        assert(s3.queues =~= s2.queues);
    }
    assert(s@.procs[parent_pid as int] == state::opt_proc(s.procs@[parent_pid as int]));
    if let Some(pp) = &mut s.procs[parent_pid] {
        pp.children.push(child);
    }
    let ghost s4 = s@;
    proof {
        let q = s3.procs[parent_pid as int]->0;
        assert(s4.procs[parent_pid as int]->0 =~= ProcV { children: q.children.push(child), ..q });
        assert(s4.procs =~= s3.procs.update(
            parent_pid as int,
            Some(ProcV { children: q.children.push(child), ..q }),
        ));
        assert(s4.queues =~= s3.queues);
        assert(s4 =~= s3.with_proc(parent_pid as int, ProcV { children: q.children.push(child), ..q }));
    }
    let _ = sched::enqueue_locked(s, child, h);
    proof {
        let f = s1.forked(parent_pid as int, child, root, tf, h as int, now);
        let c0 = state::opt_proc(proc)->0;
        let cf = ProcV {
            pid: child,
            parent: parent_pid,
            state: State::Runnable,
            exit_code: 0,
            root,
            tf_pa: tf,
            children: Seq::empty(),
            killed: false,
            kill_code: life::KILLED,
            blocked_on: 0,
            wake_at: 0,
            traced: false,
            ns,
            lpid,
            pending_ns: false,
            start_ms: now,
            ..p0
        };
        assert(c0 =~= cf);
        assert(s3 =~= s2.with_proc(child as int, cf));
        assert(s@ == f);
        let c = s@.procs[child as int]->0;
        assert(c.root == root && c.tf_pa == tf);
        assert(held(s@, child as int) == Some((root, tf)));
        assert(held(s0, child as int) is None);
        assert forall|i: int| i != child implies #[trigger] held(s@, i) == held(s0, i) by {
            if 0 <= i < s0.procs.len() {
                assert(s1.procs[i] == s0.procs[i]);
            }
        }
        lemma_fork_seated(m0, m@, kroot, p_root, p_tf, root, tf);
        lemma_mem_join(s0, s@, m0, m@, kroot, child as int);
    }
    child
}

/// Slots made for an id hold nobody.
proof fn lemma_reserved_held(s: SchedV)
    ensures
        forall|i: int| #[trigger] held(s.reserved(), i) == held(s, i),
{
}

proof fn lemma_reserved_wf(s: SchedV)
    requires
        s.wf(),
        s.next_pid < usize::MAX,
    ensures
        s.reserved().wf(),
        s.reserved().procs.len() == s.next_pid + 1,
        s.reserved().proc(s.next_pid as int) is None,
{
}

/// Tables that hold the same memory.
pub proof fn lemma_mem_same(s: SchedV, s2: SchedV, m: MemV, kroot: u64)
    requires
        mem_ok(s, m, kroot),
        forall|i: int| #[trigger] held(s2, i) == held(s, i),
    ensures
        mem_ok(s2, m, kroot),
{
    assert forall|i: int| (#[trigger] held(s2, i)) is Some implies one_ok(m, kroot, held(s2, i)->0) by {
        assert(held(s, i) is Some);
    }
    assert forall|i: int, j: int|
        i != j && (#[trigger] held(s2, i)) is Some && (#[trigger] held(s2, j)) is Some implies two_ok(
        m,
        held(s2, i)->0,
        held(s2, j)->0,
    ) by {
        assert(held(s, i) is Some && held(s, j) is Some);
    }
}

// ---- starting a program ----

/// Supervisor status a program starts with: interrupts on at return, to user
/// mode, user memory accessible.
pub const USER_SSTATUS: u64 = 0x4_0020;

/// Saved registers of a program that starts: all zero but stack pointer, entry
/// point, status and kernel stack.
pub open spec fn start_words(w: Seq<u64>, sp: u64, entry: u64, ksp: u64) -> Seq<u64> {
    Seq::new(
        w.len(),
        |i: int|
            if i == 2 {
                sp
            } else if i == 32 {
                USER_SSTATUS
            } else if i == 33 {
                entry
            } else if i == 34 {
                ksp
            } else if i < 35 {
                0
            } else {
                w[i]
            },
    )
}

/// Fills the frame of saved registers for a program that starts.
pub fn start_frame(m: &mut Mem, tf: u64, sp: u64, entry: u64, ksp: u64)
    requires
        old(m)@.wf(),
        old(m)@.live(tf),
    ensures
        final(m)@.wf(),
        final(m)@ == image::with_frame(
            old(m)@,
            tf,
            start_words(old(m)@.ram[frame::fi(tf)], sp, entry, ksp),
        ),
{
    let ghost m0 = m@;
    let ghost w0 = m0.ram[frame::fi(tf)];
    let mut i: u64 = 0;
    proof {
        pt::lemma_fi_inj(tf, tf);
        assert(m0.ram.update(frame::fi(tf), w0) =~= m0.ram);
        assert(start_words(w0, sp, entry, ksp).take(0) + w0.skip(0) =~= w0);
    }
    while i < 35
        invariant
            m0 == old(m)@,
            m0.wf(),
            m0.live(tf),
            0 <= frame::fi(tf) < m0.ram.len(),
            w0 == m0.ram[frame::fi(tf)],
            w0.len() == WORDS,
            i <= 35,
            m@.wf(),
            m@ == image::with_frame(
                m0,
                tf,
                start_words(w0, sp, entry, ksp).take(i as int) + w0.skip(i as int),
            ),
        decreases 35 - i,
    {
        let v: u64 = if i == 2 {
            sp
        } else if i == 32 {
            USER_SSTATUS
        } else if i == 33 {
            entry
        } else if i == 34 {
            ksp
        } else {
            0
        };
        pt::wr_word(m, tf, i, v);
        proof {
            let a = start_words(w0, sp, entry, ksp);
            assert((a.take(i as int) + w0.skip(i as int)).update(i as int, v) =~= a.take(i + 1) + w0.skip(
                i + 1,
            ));
            assert(m@.ram =~= m0.ram.update(frame::fi(tf), a.take(i + 1) + w0.skip(i + 1)));
            assert(m@.wf()) by {
                assert forall|k: int| 0 <= k < m@.fa.recycled.len() implies m@.ram[frame::fi(
                    #[trigger] m@.fa.recycled[k],
                )] == frame::zero_frame() by {
                    let r = m@.fa.recycled[k];
                    assert(m0.fa.recycled.contains(r));
                    assert(m0.free(r));
                    pt::lemma_fi_inj(r, tf);
                }
            }
        }
        i += 1;
    }
    proof {
        let a = start_words(w0, sp, entry, ksp);
        assert(a.take(35) + w0.skip(35) =~= a);
    }
}

pub const NO_ID: i32 = -1;

/// A descriptor that refers to nothing.
pub open spec fn no_fd() -> Fd {
    Fd { kind: 0, id: NO_ID, off: 0, path: 0, cloexec: false }
}

/// Descriptors of the first process: the console three times.
pub open spec fn console_fds(id0: i32, id1: i32, id2: i32) -> Seq<Fd> {
    Seq::new(
        NFD as nat,
        |i: int|
            if i == 0 {
                Fd { kind: 1, id: id0, off: 0, path: 0, cloexec: false }
            } else if i == 1 {
                Fd { kind: 2, id: id1, off: 0, path: 0, cloexec: false }
            } else if i == 2 {
                Fd { kind: 2, id: id2, off: 0, path: 0, cloexec: false }
            } else {
                no_fd()
            },
    )
}

/// Descriptors passed to a spawned process: what they refer to, from its
/// start.
pub open spec fn passed_fds(fds: Seq<Fd>) -> Seq<Fd> {
    Seq::new(
        fds.len(),
        |i: int| Fd { kind: fds[i].kind, id: fds[i].id, off: 0, path: 0, cloexec: false },
    )
}

/// Longest name kept.
pub const MAX_NAME: usize = 31;

impl SchedV {
    /// The table with a spawned process, queued on hart `hq`.
    pub open spec fn spawned(
        self,
        pid: usize,
        parent: usize,
        root: u64,
        tf: u64,
        name: Seq<u8>,
        brk: u64,
        hq: int,
        now: u64,
    ) -> SchedV {
        let fds = if parent == 0 {
            console_fds(0, 1, 2)
        } else {
            match self.proc(parent as int) {
                Some(p) => passed_fds(p.fds),
                None => console_fds(NO_ID, NO_ID, NO_ID),
            }
        };
        let c = ProcV {
            pid,
            parent,
            state: State::Runnable,
            exit_code: 0,
            root,
            tf_pa: tf,
            brk,
            fds,
            children: Seq::empty(),
            name: name.take(args::min_int(name.len() as int, MAX_NAME as int)),
            killed: false,
            kill_code: life::KILLED,
            blocked_on: 0,
            wake_at: 0,
            cwd: match self.proc(parent as int) {
                Some(p) if parent != 0 => p.cwd,
                _ => seq![0x2fu8],
            },
            fsroot: match self.proc(parent as int) {
                Some(p) if parent != 0 => p.fsroot,
                _ => seq![0x2fu8],
            },
            mmap_base: (USER_STACK_TOP - USER_STACK_PAGES * 4096) as u64,
            brk_min: brk,
            traced: false,
            cg: 0,
            ns: 0,
            lpid: pid,
            pending_ns: false,
            start_ms: now,
        };
        let s1 = self.with_proc(pid as int, c);
        let s2 = match s1.proc(parent as int) {
            Some(p) if parent != 0 => s1.with_proc(
                parent as int,
                ProcV { children: p.children.push(pid), ..p },
            ),
            _ => s1,
        };
        s2.enqueue(pid, hq)
    }
}

pub fn slash() -> (v: Vec<u8>)
    ensures
        v@ == seq![0x2fu8],
{
    let mut v: Vec<u8> = Vec::new();
    v.push(0x2f);
    assert(v@ =~= seq![0x2fu8]);
    v
}

fn clip_name(name: &[u8]) -> (r: Vec<u8>)
    ensures
        r@ == name@.take(args::min_int(name@.len() as int, MAX_NAME as int)),
{
    let n: usize = if name.len() < MAX_NAME {
        name.len()
    } else {
        MAX_NAME
    };
    let mut r: Vec<u8> = Vec::new();
    let mut i: usize = 0;
    while i < n
        invariant
            i <= n <= name@.len(),
            r@ == name@.take(i as int),
        decreases n - i,
    {
        r.push(name[i]);
        i += 1;
        assert(r@ =~= name@.take(i as int));
    }
    r
}

fn pass_fds(fds: &[Fd; NFD]) -> (r: [Fd; NFD])
    ensures
        r@ == passed_fds(fds@),
{
    let mut r: [Fd; NFD] = [Fd { kind: 0, id: NO_ID, off: 0, path: 0, cloexec: false }; NFD];
    let mut i: usize = 0;
    while i < NFD
        invariant
            i <= NFD,
            forall|j: int| 0 <= j < i ==> #[trigger] r@[j] == passed_fds(fds@)[j],
        decreases NFD - i,
    {
        r[i] = Fd { kind: fds[i].kind, id: fds[i].id, off: 0, path: 0, cloexec: false };
        i += 1;
    }
    assert(r@ =~= passed_fds(fds@));
    r
}

fn console_table(id0: i32, id1: i32, id2: i32) -> (r: [Fd; NFD])
    ensures
        r@ == console_fds(id0, id1, id2),
{
    let mut r: [Fd; NFD] = [Fd { kind: 0, id: NO_ID, off: 0, path: 0, cloexec: false }; NFD];
    r[0] = Fd { kind: 1, id: id0, off: 0, path: 0, cloexec: false };
    r[1] = Fd { kind: 2, id: id1, off: 0, path: 0, cloexec: false };
    r[2] = Fd { kind: 2, id: id2, off: 0, path: 0, cloexec: false };
    assert(r@ =~= console_fds(id0, id1, id2));
    r
}

/// Enters a process into its slot, with its parent's files and directories, or
/// the console's at boot, and queues it on hart `h`.
fn finish_spawn(
    s: &mut Sched,
    pid: usize,
    parent: usize,
    root: u64,
    tf_pa: u64,
    name: &[u8],
    brk: u64,
    h: usize,
    now: u64,
)
    requires
        h < MAX_HART,
        pid < old(s)@.procs.len(),
        old(s)@.procs[pid as int] is None,
        parent != pid,
    ensures
        final(s)@ == old(s)@.spawned(pid, parent, root, tf_pa, name@, brk, h as int, now),
{
    let ghost s0 = s@;
    let mut fds: [Fd; NFD] = console_table(0, 1, 2);
    let mut cwd = slash();
    let mut fsroot = slash();
    if parent != 0 {
        fds = console_table(-1, -1, -1);
        if parent < s.procs.len() {
            assert(s@.procs[parent as int] == state::opt_proc(s.procs@[parent as int]));
            if let Some(p) = &s.procs[parent] {
                fds = pass_fds(&p.fds);
                cwd = clone_bytes(&p.cwd);
                fsroot = clone_bytes(&p.fsroot);
            }
        }
    }
    let c = Proc {
        pid,
        parent,
        state: State::Runnable,
        exit_code: 0,
        root,
        tf_pa,
        brk,
        fds,
        children: Vec::new(),
        name: clip_name(name),
        killed: false,
        kill_code: life::KILLED,
        blocked_on: 0,
        wake_at: 0,
        cwd,
        fsroot,
        mmap_base: USER_STACK_TOP - USER_STACK_PAGES * 4096,
        brk_min: brk,
        traced: false,
        cg: 0,
        ns: 0,
        lpid: pid,
        pending_ns: false,
        start_ms: now,
    };
    let ghost cv = c@;
    s.procs.set(pid, Some(c));
    let ghost s1 = s@;
    assert(s1 =~= s0.with_proc(pid as int, cv)) by {
        assert(s1.procs =~= s0.procs.update(pid as int, Some(cv)));
        assert(s1.queues =~= s0.queues);
    }
    if parent != 0 && parent < s.procs.len() {
        assert(s@.procs[parent as int] == state::opt_proc(s.procs@[parent as int]));
        if let Some(pp) = &mut s.procs[parent] {
            pp.children.push(pid);
        }
        proof {
            if s1.procs[parent as int] is Some {
                let q = s1.procs[parent as int]->0;
                assert(s@.procs[parent as int]->0 =~= ProcV { children: q.children.push(pid), ..q });
                assert(s@.procs =~= s1.procs.update(
                    parent as int,
                    Some(ProcV { children: q.children.push(pid), ..q }),
                ));
            } else {
                assert(s@.procs =~= s1.procs);
            }
            assert(s@.queues =~= s1.queues);
        }
    }
    let _ = sched::enqueue_locked(s, pid, h);
}

/// The least break of a program.
pub const MIN_BRK: u64 = 0x2_0000;

/// A space of kernel pages and saved registers is one to run in.
proof fn lemma_blank_seated(m0: MemV, m: MemV, kroot: u64, root: u64, tf: u64)
    requires
        kernel_map(m0, kroot),
        image::blank_leaves(m0, m, kroot, root, tf),
    ensures
        image::seated(m, root, tf),
{
    pt::lemma_flag_consts();
    space::lemma_indices(TRAPFRAME_VA);
    assert forall|u: u64|
        u < VA_END && u % PAGE_SIZE == 0 && kernel::kernel_leaf(u) != 0 implies #[trigger] pt::leaf_at(m, root, u)
        == kernel::kernel_leaf(u) by {
        space::lemma_indices(u);
        space::lemma_same_page(u, TRAPFRAME_VA);
        image::lemma_kernel_leaf(u);
        assert(pt::leaf_at(m0, kroot, u) == kernel::kernel_leaf(u));
    }
    assert forall|u: u64|
        u < VA_END && u % PAGE_SIZE == 0 && pt::translation(m, root, u) is Some && image::clear_page(
            u,
        ) implies pt::user(#[trigger] pt::leaf_at(m, root, u)) by {
        space::lemma_indices(u);
        space::lemma_same_page(u, TRAPFRAME_VA);
        assert(pt::leaf_at(m0, kroot, u) == kernel::kernel_leaf(u));
        assert(pt::page_down(u) == u);
    }
}

/// What a program in memory looks like when it starts.
pub open spec fn started(
    m: MemV,
    root: u64,
    tf: u64,
    w: Seq<u64>,
    data: Seq<u8>,
    av: Seq<Seq<u8>>,
    env: Seq<Seq<u8>>,
    ksp: u64,
) -> bool {
    let progs = elf::loads(data, elf::u16_at(data, 0x38) as int);
    &&& args::laid(|u: u64| image::image_byte(progs, data, u), m, root, av, env)
    &&& forall|u: u64|
        u < VA_END ==> #[trigger] image::uflags(m, root, u) == image::image_prot(progs, u)
    &&& image::seated(m, root, tf)
    &&& m.ram[frame::fi(tf)] == start_words(
        w,
        args::sp_of(av, env) as u64,
        elf::u64_at(data, 0x18),
        ksp,
    )
}

/// The break a program starts with.
pub open spec fn start_brk(data: Seq<u8>) -> u64 {
    let progs = elf::loads(data, elf::u16_at(data, 0x38) as int);
    let e = image::segs_end(progs, progs.len() as int);
    if e > MIN_BRK {
        e as u64
    } else {
        MIN_BRK
    }
}

/// The file's segments can be loaded.
pub open spec fn loadable(data: Seq<u8>) -> bool {
    image::segs_ok(elf::loads(data, elf::u16_at(data, 0x38) as int), data.len())
}

/// Frames that loading the file into a fresh space takes.
pub open spec fn load_cost(m: MemV, kroot: u64, data: Seq<u8>) -> nat {
    need::image_need(need::fresh_shape(m, kroot), elf::loads(data, elf::u16_at(data, 0x38) as int))
}

/// Starts a program from an executable, without arguments, charged to the root
/// group. None when the file is no executable or a frame cannot be had.
#[verifier::spinoff_prover]
#[verifier::rlimit(60)]
pub fn spawn_from_elf(
    s: &mut Sched,
    m: &mut Mem,
    kroot: u64,
    name: &[u8],
    elf_bytes: &[u8],
    parent: usize,
    h: usize,
    ksp: u64,
    now: u64,
) -> (r: Option<usize>)
    requires
        old(s)@.wf(),
        mem_ok(old(s)@, old(m)@, kroot),
        old(s)@.next_pid < usize::MAX,
        parent != old(s)@.next_pid,
        h < MAX_HART,
        elf::elf_ok(elf_bytes@) ==> loadable(elf_bytes@),
    ensures
        final(s)@.wf(),
        mem_ok(final(s)@, final(m)@, kroot),
        kernel::keeps_live(old(m)@, final(m)@),
        r is Some <==> elf::elf_ok(elf_bytes@) && image::space_cost(old(m)@, kroot) + load_cost(
            old(m)@,
            kroot,
            elf_bytes@,
        ) <= old(m)@.fa.room(0),
        r is None ==> final(s)@ == if image::space_cost(old(m)@, kroot) <= old(m)@.fa.room(0) {
            old(s)@.reserved()
        } else {
            old(s)@
        },
        r is None ==> image::given_back(old(m)@, final(m)@),
        r matches Some(pid) ==> {
            let c = final(s)@.procs[pid as int]->0;
            &&& pid == old(s)@.next_pid
            &&& final(s)@ == old(s)@.reserved().spawned(
                pid,
                parent,
                c.root,
                c.tf_pa,
                name@,
                start_brk(elf_bytes@),
                h as int,
                now,
            )
            &&& image::built(old(m)@, final(m)@, c.root, c.tf_pa)
            &&& old(m)@.free(c.tf_pa)
            &&& started(
                final(m)@,
                c.root,
                c.tf_pa,
                frame::zero_frame(),
                elf_bytes@,
                Seq::empty(),
                Seq::empty(),
                ksp,
            )
        },
{
    let ghost s0 = s@;
    let ghost m0 = m@;
    let (root, tf) = match image::new_space(m, kroot, 0) {
        Some(p) => p,
        None => {
            proof {
                lemma_mem_kept(s0, m0, m@, kroot);
            }
            return None;
        },
    };
    let ghost m1 = m@;
    let pid = reserve(s);
    let ghost s1 = s@;
    proof {
        lemma_reserved_wf(s0);
        lemma_reserved_held(s0);
        lemma_mem_same(s0, s1, m0, kroot);
        lemma_blank_seated(m0, m1, kroot, root, tf);
        need::lemma_fresh_shape(m0, m1, kroot, root);
    }
    let no_args: Vec<Vec<u8>> = Vec::new();
    let no_env: Vec<Vec<u8>> = Vec::new();
    let info = match elf::parse(elf_bytes) {
        Some(i) => i,
        None => {
            undo(m, Ghost(m0), root, tf);
            proof {
                lemma_mem_kept(s1, m0, m@, kroot);
            }
            return None;
        },
    };
    let (sp, end) = match image::load_image(m, root, &info, elf_bytes, &no_args, &no_env, 0) {
        Some(q) => q,
        None => {
            proof {
                image::lemma_built_step(m0, m1, m@, root, tf);
            }
            undo(m, Ghost(m0), root, tf);
            proof {
                lemma_mem_kept(s1, m0, m@, kroot);
            }
            return None;
        },
    };
    let ghost m2 = m@;
    proof {
        image::lemma_built_step(m0, m1, m2, root, tf);
        image::lemma_seated_kept(m1, m2, root, tf);
        assert(args::strs_of(no_args@) =~= Seq::<Seq<u8>>::empty());
        assert(args::strs_of(no_env@) =~= Seq::<Seq<u8>>::empty());
    }
    start_frame(m, tf, sp, info.entry, ksp);
    let brk: u64 = if end > MIN_BRK {
        end
    } else {
        MIN_BRK
    };
    finish_spawn(s, pid, parent, root, tf, name, brk, h, now);
    proof {
        let w = start_words(frame::zero_frame(), sp, info.entry, ksp);
        pt::lemma_fi_inj(tf, tf);
        image::lemma_frame_written(m2, root, tf, w);
        image::lemma_built_written(m0, m2, root, tf, w);
        lemma_started(m2, root, tf, w, info.progs@, elf_bytes@, Seq::empty(), Seq::empty());
        let c = s@.procs[pid as int]->0;
        assert(c.root == root && c.tf_pa == tf);
        assert(held(s@, pid as int) == Some((root, tf)));
        assert(held(s0, pid as int) is None);
        assert forall|i: int| i != pid implies #[trigger] held(s@, i) == held(s0, i) by {
            assert(held(s1, i) == held(s0, i));
        }
        lemma_mem_join(s0, s@, m0, m@, kroot, pid as int);
    }
    Some(pid)
}

/// Writing the saved registers leaves the program as it is.
proof fn lemma_started(
    m: MemV,
    root: u64,
    tf: u64,
    w: Seq<u64>,
    progs: Seq<elf::Prog>,
    data: Seq<u8>,
    av: Seq<Seq<u8>>,
    env: Seq<Seq<u8>>,
)
    requires
        m.wf(),
        space::space_wf(m, root),
        m.live(tf),
        !space::owns(m, root, tf),
        w.len() == WORDS,
        args::laid(|u: u64| image::image_byte(progs, data, u), m, root, av, env),
        forall|u: u64|
            u < VA_END ==> #[trigger] image::uflags(m, root, u) == image::image_prot(progs, u),
        image::seated(m, root, tf),
    ensures
        image::seated(image::with_frame(m, tf, w), root, tf),
        args::laid(
            |u: u64| image::image_byte(progs, data, u),
            image::with_frame(m, tf, w),
            root,
            av,
            env,
        ),
        forall|u: u64|
            u < VA_END ==> #[trigger] image::uflags(image::with_frame(m, tf, w), root, u)
                == image::image_prot(progs, u),
{
    let n = image::with_frame(m, tf, w);
    image::lemma_frame_written(m, root, tf, w);
    image::lemma_seated_same(m, n, root, tf);
    let strs = args::all_strs(av, env);
    assert forall|i: int| 0 <= i < strs.len() implies args::holds(
        n,
        root,
        #[trigger] args::addr_of(strs, i + 1),
        args::clip(strs[i]),
    ) by {
        assert(args::holds(m, root, args::addr_of(strs, i + 1), args::clip(strs[i])));
    }
    assert forall|u: u64| u < VA_END implies #[trigger] image::uflags(n, root, u) == image::image_prot(
        progs,
        u,
    ) by {
        space::lemma_indices(u);
        assert(image::uflags(m, root, u) == image::image_prot(progs, u));
    }
}

/// Gives back a process's memory that was just built.
fn undo(m: &mut Mem, Ghost(m0): Ghost<MemV>, root: u64, tf: u64)
    requires
        m0.wf(),
        m0.free(tf),
        image::built(m0, old(m)@, root, tf),
    ensures
        final(m)@.wf(),
        image::given_back(m0, final(m)@),
{
    let ghost m1 = m@;
    frame::dealloc_frame(m, tf);
    let ghost m2 = m@;
    proof {
        frame::law_dealloc(m1, tf);
        image::lemma_dealloc_other(m1, root, tf);
    }
    teardown::free_user_space(m, root);
    proof {
        image::lemma_undone_tf(m0, m1, m2, m@, root, tf);
    }
}

// ---- replacing a program ----

pub open spec fn closed_fds(fds: Seq<Fd>) -> Seq<Fd> {
    Seq::new(
        fds.len(),
        |i: int|
            if fds[i].cloexec {
                no_fd()
            } else {
                fds[i]
            },
    )
}

impl SchedV {
    /// The process runs another program: new space, new break, mappings from
    /// below the stack again, and the descriptors marked for it closed.
    pub open spec fn replaced(self, pid: int, root: u64, brk: u64) -> SchedV {
        let p = self.procs[pid]->0;
        self.with_proc(
            pid,
            ProcV {
                root,
                brk,
                mmap_base: (USER_STACK_TOP - USER_STACK_PAGES * 4096) as u64,
                brk_min: brk,
                fds: closed_fds(p.fds),
                ..p
            },
        )
    }

    /// Group charged for what hart `h` asks for.
    pub open spec fn charged(self, h: int) -> usize {
        if !self.active {
            0
        } else {
            match self.running_on(h) {
                Some(p) => p.cg,
                None => 0,
            }
        }
    }
}

fn close_fds(fds: &[Fd; NFD]) -> (r: [Fd; NFD])
    ensures
        r@ == closed_fds(fds@),
{
    let mut r: [Fd; NFD] = *fds;
    let mut i: usize = 0;
    while i < NFD
        invariant
            i <= NFD,
            forall|j: int| 0 <= j < i ==> #[trigger] r@[j] == closed_fds(fds@)[j],
            forall|j: int| i <= j < NFD ==> #[trigger] r@[j] == fds@[j],
        decreases NFD - i,
    {
        if r[i].cloexec {
            r[i] = Fd { kind: 0, id: NO_ID, off: 0, path: 0, cloexec: false };
        }
        i += 1;
    }
    assert(r@ =~= closed_fds(fds@));
    r
}

/// A process's memory is swapped for a freshly built space; the frame of saved
/// registers stays its own.
proof fn lemma_mem_swap(s: SchedV, s2: SchedV, m: MemV, k: MemV, w: Seq<u64>, kroot: u64, c: int)
    requires
        mem_ok(s, m, kroot),
        held(s, c) is Some,
        held(s2, c) is Some,
        (held(s2, c)->0).1 == (held(s, c)->0).1,
        image::built(m, k, (held(s2, c)->0).0, (held(s2, c)->0).1),
        image::seated(k, (held(s2, c)->0).0, (held(s2, c)->0).1),
        w.len() == WORDS,
        forall|i: int| i != c ==> #[trigger] held(s2, i) == held(s, i),
    ensures
        mem_ok(s2, image::with_frame(k, (held(s, c)->0).1, w), kroot),
{
    let o = held(s, c)->0;
    let h = held(s2, c)->0;
    let tf = h.1;
    let n = image::with_frame(k, tf, w);
    assert(one_ok(m, kroot, o));
    lemma_mem_kept(s, m, k, kroot);
    assert(one_ok(k, kroot, o));
    image::lemma_frame_written(k, h.0, tf, w);
    image::lemma_seated_same(k, n, h.0, tf);
    image::lemma_frame_written(k, kroot, tf, w);
    lemma_kernel_map(k, n, kroot);
    image::lemma_live_kept(m, k, kroot);
    assert forall|t: u64| #[trigger] space::owns(n, h.0, t) implies !space::owns(n, kroot, t) by {
        assert(space::owns(k, h.0, t));
        assert(m.free(t));
        if space::owns(m, kroot, t) {
            space::lemma_owned_live(m, kroot, t);
        }
    }
    assert forall|i: int| (#[trigger] held(s2, i)) is Some implies one_ok(n, kroot, held(s2, i)->0) by {
        if i != c {
            assert(held(s, i) is Some);
            let a = held(s, i)->0;
            assert(two_ok(k, a, o) && one_ok(k, kroot, a));
            image::lemma_frame_written(k, a.0, tf, w);
            image::lemma_seated_same(k, n, a.0, a.1);
            assert forall|t: u64| #[trigger] space::owns(n, a.0, t) implies !space::owns(n, kroot, t) by {
                assert(space::owns(k, a.0, t));
            }
        }
    }
    assert forall|i: int, j: int|
        i != j && (#[trigger] held(s2, i)) is Some && (#[trigger] held(s2, j)) is Some implies two_ok(
        n,
        held(s2, i)->0,
        held(s2, j)->0,
    ) by {
        if i != c && j != c {
            assert(held(s, i) is Some && held(s, j) is Some);
            let a = held(s, i)->0;
            let b = held(s, j)->0;
            assert(two_ok(k, a, o) && two_ok(k, b, o) && two_ok(k, a, b));
            image::lemma_frame_written(k, a.0, tf, w);
            image::lemma_frame_written(k, b.0, tf, w);
            assert forall|t: u64| #[trigger] space::owns(n, a.0, t) implies !space::owns(n, b.0, t) by {
                assert(space::owns(k, a.0, t));
            }
        } else {
            let q = if i == c {
                j
            } else {
                i
            };
            assert(held(s, q) is Some);
            let a = held(s, q)->0;
            assert(two_ok(m, a, o) && one_ok(m, kroot, a));
            assert(two_ok(k, a, o) && one_ok(k, kroot, a));
            image::lemma_frame_written(k, a.0, tf, w);
            image::lemma_live_kept(m, k, a.0);
            assert forall|t: u64| #[trigger] space::owns(n, a.0, t) implies !space::owns(n, h.0, t) by {
                assert(space::owns(k, a.0, t));
                assert(space::owns(m, a.0, t));
                space::lemma_owned_live(m, a.0, t);
            }
            assert forall|t: u64| #[trigger] space::owns(n, h.0, t) implies !space::owns(n, a.0, t) by {
                assert(space::owns(n, a.0, t) ==> !space::owns(n, h.0, t));
            }
            if space::owns(k, h.0, a.1) {
                assert(m.free(a.1));
            }
        }
    }
}

/// What a successful exec leads to: the process has a new space, in which the
/// program stands as it starts, and no other memory in use changed.
pub open spec fn exec_done(
    s0: SchedV,
    m0: MemV,
    s: SchedV,
    m: MemV,
    pid: usize,
    data: Seq<u8>,
    av: Seq<Seq<u8>>,
    env: Seq<Seq<u8>>,
    ksp: u64,
) -> bool {
    let p = s0.procs[pid as int]->0;
    let root = (s.procs[pid as int]->0).root;
    &&& s == s0.replaced(pid as int, root, start_brk(data))
    &&& forall|t: u64| #[trigger] space::owns(m, root, t) ==> m0.free(t)
    &&& forall|t: u64|
        frame::in_ram(t) && !m0.free(t) && t != p.tf_pa ==> #[trigger] m.ram[frame::fi(t)] == m0.ram[frame::fi(t)] && !m.free(t)
    &&& forall|t: u64|
        #![trigger m.free(t)]
        m0.free(t) && !m.free(t) ==> space::owns(m, root, t)
    &&& started(
        m,
        root,
        p.tf_pa,
        m0.ram[frame::fi(p.tf_pa)],
        data,
        av,
        env,
        ksp,
    )
}

/// Tables of a copy of the kernel's space once the saved registers are mapped.
proof fn lemma_fresh_tables(m0: MemV, m1: MemV, m2: MemV, kroot: u64, root: u64)
    requires
        kernel::fresh_space(m0, m1, kroot, root),
        pt::tables_after(m1, m2, root, TRAPFRAME_VA),
    ensures
        image::fresh_tables(m0, m2, kroot, root),
{
    assert forall|x: int| pt::ix(x) implies #[trigger] pt::has1(m2, root, x) == image::has1_fresh(
        m0,
        kroot,
        x,
    ) by {
        assert(pt::has1(m1, root, x) == pt::has1(m0, kroot, x));
    }
    assert forall|x: int, y: int| pt::ix(x) && pt::ix(y) implies #[trigger] pt::has0(m2, root, x, y)
        == image::has0_fresh(m0, kroot, x, y) by {
        assert(pt::has0(m1, root, x, y) == pt::has0(m0, kroot, x, y));
    }
}

/// Has a process run another program with the given arguments and environment,
/// charged to the group hart `h` runs for. False, with the table unchanged, when
/// the file is no executable, the process is gone or a frame cannot be had.
/// The tables and pages of the old program stay in use.
#[verifier::spinoff_prover]
#[verifier::rlimit(80)]
pub fn exec(
    s: &mut Sched,
    m: &mut Mem,
    kroot: u64,
    pid: usize,
    data: &[u8],
    av: &Vec<Vec<u8>>,
    env: &Vec<Vec<u8>>,
    h: usize,
    ksp: u64,
) -> (ok: bool)
    requires
        old(s)@.wf(),
        mem_ok(old(s)@, old(m)@, kroot),
        h < MAX_HART,
        elf::elf_ok(data@) ==> loadable(data@),
    ensures
        final(s)@.wf(),
        mem_ok(final(s)@, final(m)@, kroot),
        ok <==> elf::elf_ok(data@) && old(s)@.proc(pid as int) is Some && image::bare_cost(old(m)@, kroot)
            + load_cost(old(m)@, kroot, data@) <= old(m)@.fa.room(old(s)@.charged(h as int)),
        !ok ==> {
            &&& final(s)@ == old(s)@
            &&& kernel::keeps_live(old(m)@, final(m)@)
            &&& image::given_back(old(m)@, final(m)@)
            &&& !elf::elf_ok(data@) ==> final(m)@ == old(m)@
        },
        ok ==> exec_done(
            old(s)@,
            old(m)@,
            final(s)@,
            final(m)@,
            pid,
            data@,
            args::strs_of(av@),
            args::strs_of(env@),
            ksp,
        ),
{
    let ghost s0 = s@;
    let ghost m0 = m@;
    let info = match elf::parse(data) {
        Some(i) => i,
        None => {
            proof {
                frame::lemma_same_use(m0, m0);
            }
            return false;
        },
    };
    let cg = life::current_cg(s, h);
    let ghost k0 = kernel::table_count(m0, kroot, WORDS as int);
    let root: u64 = match kernel::new_user_space(m, kroot, cg) {
        Some(q) => q,
        None => {
            proof {
                lemma_mem_kept(s0, m0, m@, kroot);
            }
            return false;
        },
    };
    let ghost m1 = m@;
    proof {
        let _ = frame::lemma_grabs_room(m0, cg, 1 + k0);
        frame::lemma_owners_grabs(m0, m1, cg, 1 + k0);
    }
    let mut tf: u64 = 0;
    let mut there = false;
    if pid < s.procs.len() {
        assert(s@.procs[pid as int] == state::opt_proc(s.procs@[pid as int]));
        if let Some(p) = &s.procs[pid] {
            tf = p.tf_pa;
            there = true;
        }
    }
    if !there {
        teardown::free_user_space(m, root);
        proof {
            teardown::lemma_undo(m0, m1, m@, root);
            lemma_mem_kept(s0, m0, m@, kroot);
        }
        return false;
    }
    let ghost p0 = s0.procs[pid as int]->0;
    proof {
        assert(held(s0, pid as int) == Some((p0.root, p0.tf_pa)));
        assert(one_ok(m0, kroot, (p0.root, p0.tf_pa)));
        assert(m1.ram[frame::fi(tf)] == m0.ram[frame::fi(tf)] && !m1.free(tf));
        assert(image::built(m0, m1, root, tf));
        space::lemma_indices(TRAPFRAME_VA);
        let (a, b) = (pt::vpn_of(TRAPFRAME_VA, 2), pt::vpn_of(TRAPFRAME_VA, 1));
        assert(pt::has1(m1, root, a) == pt::has1(m0, kroot, a));
        assert(pt::has0(m1, root, a, b) == pt::has0(m0, kroot, a, b));
    }
    let mapped = pt::map_one(m, root, TRAPFRAME_VA, tf, pt::PTE_R | pt::PTE_W, cg);
    let ghost m2 = m@;
    proof {
        image::lemma_tf_mapped(m1, m2, root, tf, mapped);
        frame::lemma_owners_grabs(
            m1,
            m2,
            cg,
            pt::min_nat(pt::tables_needed(m1, root, TRAPFRAME_VA), m1.fa.room(cg)),
        );
        image::lemma_built_step(m0, m1, m2, root, tf);
        let _ = frame::lemma_grabs_room(
            m1,
            cg,
            pt::min_nat(pt::tables_needed(m1, root, TRAPFRAME_VA), m1.fa.room(cg)),
        );
    }
    if !mapped {
        teardown::free_user_space(m, root);
        proof {
            image::lemma_undone(m0, m2, m@, root, tf);
            lemma_mem_kept(s0, m0, m@, kroot);
        }
        return false;
    }
    proof {
        assert forall|x: int, y: int, z: int| pt::ix(x) && pt::ix(y) && pt::ix(z) implies #[trigger] pt::leaf(
            m2,
            root,
            x,
            y,
            z,
        ) == image::blank_leaf(m0, kroot, tf, x, y, z) by {
            assert(pt::leaf(m1, root, x, y, z) == pt::leaf(m1, root, x, y, z));
        }
        lemma_blank_seated(m0, m2, kroot, root, tf);
        lemma_fresh_tables(m0, m1, m2, kroot, root);
        need::lemma_fresh_shape(m0, m2, kroot, root);
    }
    let (sp, end) = match image::load_image(m, root, &info, data, av, env, cg) {
        Some(q) => q,
        None => {
            let ghost m3 = m@;
            proof {
                image::lemma_built_step(m0, m2, m3, root, tf);
            }
            teardown::free_user_space(m, root);
            proof {
                image::lemma_undone(m0, m3, m@, root, tf);
                lemma_mem_kept(s0, m0, m@, kroot);
            }
            return false;
        },
    };
    let ghost m3 = m@;
    proof {
        image::lemma_built_step(m0, m2, m3, root, tf);
        image::lemma_seated_kept(m2, m3, root, tf);
    }
    start_frame(m, tf, sp, info.entry, ksp);
    let brk: u64 = if end > MIN_BRK {
        end
    } else {
        MIN_BRK
    };
    if let Some(p) = &mut s.procs[pid] {
        p.root = root;
        p.brk = brk;
        p.mmap_base = USER_STACK_TOP - USER_STACK_PAGES * 4096;
        p.brk_min = brk;
        p.fds = close_fds(&p.fds);
    }
    proof {
        let t = s0.replaced(pid as int, root, brk);
        assert(s@.procs[pid as int]->0 =~= t.procs[pid as int]->0);
        assert(s@.procs =~= t.procs);
        assert(s@.queues =~= t.queues);
        assert(s@ == t);
        assert(m3.ram[frame::fi(tf)] == m0.ram[frame::fi(tf)]);
        let w = start_words(m0.ram[frame::fi(tf)], sp, info.entry, ksp);
        pt::lemma_fi_inj(tf, tf);
        lemma_started(m3, root, tf, w, info.progs@, data@, args::strs_of(av@), args::strs_of(env@));
        image::lemma_frame_written(m3, root, tf, w);
        assert(held(s@, pid as int) == Some((root, tf)));
        assert forall|i: int| i != pid implies #[trigger] held(s@, i) == held(s0, i) by {}
        lemma_mem_swap(s0, s@, m0, m3, w, kroot, pid as int);
        assert forall|t: u64| #[trigger] space::owns(m@, root, t) implies m0.free(t) by {
            assert(space::owns(m3, root, t));
        }
        assert forall|t: u64| frame::in_ram(t) && !m0.free(t) && t != tf implies #[trigger] m@.ram[frame::fi(
            t,
        )] == m0.ram[frame::fi(t)] && !m@.free(t) by {
            assert(m3.ram[frame::fi(t)] == m0.ram[frame::fi(t)] && !m3.free(t));
        }
        assert forall|t: u64| #![trigger m@.free(t)] m0.free(t) && !m@.free(t) implies space::owns(
            m@,
            root,
            t,
        ) by {
            assert(!m3.free(t));
            assert(space::owns(m@, root, t) == space::owns(m3, root, t));
        }
    }
    true
}

} // verus!
