//! Address spaces of processes: making one, forking one, loading a program.
use crate::mem::copy;
use crate::mem::frame;
use crate::mem::frame::{Mem, MemV, PAGE_SIZE, WORDS};
use crate::mem::kernel;
use crate::mem::pagetable as pt;
use crate::mem::pagetable::{PTE_R, PTE_U, PTE_VAD, PTE_W};
use crate::mem::shape;
use crate::mem::space;
use crate::mem::space::VA_END;
use crate::mem::teardown;
use crate::task::args;
use crate::task::elf;
use crate::task::elf::{ElfInfo, Prog};
use crate::task::need;
use crate::task::state::{TRAPFRAME_VA, USER_STACK_PAGES, USER_STACK_TOP};
use vstd::prelude::*;

verus! {

/// The space under `root` was made since `m0` out of frames that were free
/// then. What was in use is untouched, and every frame taken belongs to the
/// space, or is the frame `tf` of saved registers, which is not the space's.
pub open spec fn built(m0: MemV, m: MemV, root: u64, tf: u64) -> bool {
    &&& m.wf()
    &&& space::space_wf(m, root)
    &&& kernel::keeps_live(m0, m)
    &&& frame::owners_kept(m0, m)
    &&& m.live(tf)
    &&& !space::owns(m, root, tf)
    &&& forall|t: u64| #[trigger] space::owns(m, root, t) ==> m0.free(t)
    &&& forall|t: u64| #[trigger] m.free(t) ==> m0.free(t)
    &&& forall|t: u64|
        #![trigger m.free(t)]
        m0.free(t) && !m.free(t) ==> space::owns(m, root, t) || t == tf
}

pub proof fn lemma_built_step(m0: MemV, m: MemV, n: MemV, root: u64, tf: u64)
    requires
        m0.wf(),
        built(m0, m, root, tf),
        n.wf(),
        space::space_wf(n, root),
        space::space_only(m, n, root),
        frame::owners_kept(m, n),
    ensures
        built(m0, n, root, tf),
        n.ram[frame::fi(tf)] == m.ram[frame::fi(tf)],
{
    frame::lemma_owners_trans(m0, m, n);
    assert forall|t: u64| frame::in_ram(t) && !m0.free(t) implies #[trigger] n.ram[frame::fi(t)]
        == m0.ram[frame::fi(t)] && !n.free(t) by {
        assert(m.ram[frame::fi(t)] == m0.ram[frame::fi(t)]);
        assert(!space::owns(m, root, t));
        assert(n.free(t) ==> m.free(t));
    }
    assert forall|t: u64| #[trigger] space::owns(n, root, t) implies m0.free(t) by {
        assert(space::owns(m, root, t) || m.free(t));
    }
    assert forall|t: u64| #[trigger] n.free(t) implies m0.free(t) by {
        assert(m.free(t));
    }
    assert forall|t: u64| #![trigger n.free(t)] m0.free(t) && !n.free(t) implies space::owns(n, root, t)
        || t == tf by {
        if !m.free(t) {
            assert(space::owns(m, root, t) || t == tf);
        }
    }
    assert(n.free(tf) ==> m.free(tf));
    assert(space::owns(n, root, tf) ==> space::owns(m, root, tf) || m.free(tf));
}

/// Tearing down a space that was built round a frame in use leaves all as it
/// was.
pub proof fn lemma_undone(m0: MemV, m: MemV, k: MemV, root: u64, tf: u64)
    requires
        m0.wf(),
        built(m0, m, root, tf),
        !m0.free(tf),
        teardown::after_free(m, k, |t: u64| teardown::gives_back(m, root, t)),
    ensures
        given_back(m0, k),
{
    teardown::lemma_undo(m0, m, k, root);
}

/// Entry for the frame of saved registers: the kernel's alone.
pub open spec fn tf_leaf(tf: u64) -> u64 {
    pt::pte_new_of(tf, (PTE_R | PTE_W) | PTE_VAD)
}

pub proof fn lemma_tf_leaf(tf: u64)
    requires
        frame::in_ram(tf),
    ensures
        !pt::user(tf_leaf(tf)),
        pt::valid(tf_leaf(tf)),
        pt::perm(tf_leaf(tf)),
{
    lemma_kernel_flags(pt::PTE_RWX | PTE_VAD, (PTE_R | PTE_W) | PTE_VAD);
    pt::lemma_pte_bits(tf, (PTE_R | PTE_W) | PTE_VAD);
}

/// The kernel's pages are its own.
pub proof fn lemma_kernel_leaf(u: u64)
    requires
        u < VA_END,
        u % PAGE_SIZE == 0,
        kernel::kernel_leaf(u) != 0,
    ensures
        !pt::user(kernel::kernel_leaf(u)),
        pt::valid(kernel::kernel_leaf(u)),
        pt::perm(kernel::kernel_leaf(u)),
{
    lemma_kernel_flags(pt::PTE_RWX | PTE_VAD, (PTE_R | PTE_W) | PTE_VAD);
    pt::lemma_pte_bits(u, pt::PTE_RWX | PTE_VAD);
    pt::lemma_pte_bits(u, (PTE_R | PTE_W) | PTE_VAD);
}

proof fn lemma_kernel_flags(f: u64, g: u64)
    requires
        f == pt::PTE_RWX | PTE_VAD,
        g == (PTE_R | PTE_W) | PTE_VAD,
    ensures
        !pt::user(f),
        pt::valid(f),
        pt::perm(f),
        !pt::user(g),
        pt::valid(g),
        pt::perm(g),
{
    assert(f & PTE_U == 0 && f & pt::PTE_V != 0 && f & pt::PTE_RWX != 0 && g & PTE_U == 0 && g & pt::PTE_V
        != 0 && g & pt::PTE_RWX != 0) by (bit_vector)
        requires
            f == pt::PTE_RWX | PTE_VAD,
            g == (PTE_R | PTE_W) | PTE_VAD,
    ;
}

/// Entry of a space that has the kernel's mappings, the frame of saved
/// registers, and nothing for the user.
pub open spec fn blank_leaf(m0: MemV, kroot: u64, tf: u64, x: int, y: int, z: int) -> u64 {
    if x == pt::vpn_of(TRAPFRAME_VA, 2) && y == pt::vpn_of(TRAPFRAME_VA, 1) && z == pt::vpn_of(TRAPFRAME_VA, 0) {
        tf_leaf(tf)
    } else if kernel::kl(pt::leaf(m0, kroot, x, y, z)) {
        pt::leaf(m0, kroot, x, y, z)
    } else {
        0
    }
}

/// All entries of a space are such.
pub open spec fn blank_leaves(m0: MemV, m: MemV, kroot: u64, root: u64, tf: u64) -> bool {
    forall|x: int, y: int, z: int|
        pt::ix(x) && pt::ix(y) && pt::ix(z) ==> #[trigger] pt::leaf(m, root, x, y, z) == blank_leaf(
            m0,
            kroot,
            tf,
            x,
            y,
            z,
        )
}

/// Mapping the frame of saved registers into a space without user pages.
pub proof fn lemma_tf_mapped(m: MemV, n: MemV, root: u64, tf: u64, ok: bool)
    requires
        m.wf(),
        space::space_wf(m, root),
        copy::bare(m, root),
        frame::in_ram(tf),
        n.wf(),
        pt::tables_wf(n, root),
        pt::only_grows(m, n, root),
        pt::tight(m, n, root),
        ok ==> pt::leaves_but(
            m,
            n,
            root,
            pt::vpn_of(TRAPFRAME_VA, 2),
            pt::vpn_of(TRAPFRAME_VA, 1),
            pt::vpn_of(TRAPFRAME_VA, 0),
            tf_leaf(tf),
        ),
        !ok ==> pt::same_leaves(m, n, root),
    ensures
        space::space_wf(n, root),
        space::space_only(m, n, root),
        copy::bare(n, root),
{
    lemma_tf_leaf(tf);
    assert forall|x: int, y: int, z: int| !(#[trigger] space::upage(n, root, x, y, z)) by {
        if pt::ix(x) && pt::ix(y) && pt::ix(z) {
            assert(!space::upage(m, root, x, y, z));
        }
    }
    copy::lemma_grow_space(m, n, root);
}

/// Frames that a fresh space takes where there is a frame of saved registers: a
/// root, a copy of each of the kernel's tables, and the tables missing for that
/// frame.
pub open spec fn bare_cost(m: MemV, kroot: u64) -> nat {
    1 + kernel::table_count(m, kroot, WORDS as int) + pt::tables_needed(m, kroot, TRAPFRAME_VA)
}

/// Frames that a fresh space takes with its frame of saved registers.
pub open spec fn space_cost(m: MemV, kroot: u64) -> nat {
    1 + bare_cost(m, kroot)
}

/// What is left of a space that could not be made: nothing. The allocator has
/// what it had, charged to whom it was, and what was in use is untouched.
pub open spec fn given_back(m0: MemV, m: MemV) -> bool {
    frame::same_use(m0, m) && kernel::keeps_live(m0, m)
}

/// A fresh space has the tables that the kernel has, and those of the frame of
/// saved registers.
pub open spec fn has1_fresh(m: MemV, kroot: u64, x: int) -> bool {
    pt::has1(m, kroot, x) || x == pt::vpn_of(TRAPFRAME_VA, 2)
}

pub open spec fn has0_fresh(m: MemV, kroot: u64, x: int, y: int) -> bool {
    pt::has0(m, kroot, x, y) || (x == pt::vpn_of(TRAPFRAME_VA, 2) && y == pt::vpn_of(TRAPFRAME_VA, 1))
}

pub open spec fn fresh_tables(m: MemV, n: MemV, kroot: u64, root: u64) -> bool {
    &&& forall|x: int| pt::ix(x) ==> #[trigger] pt::has1(n, root, x) == has1_fresh(m, kroot, x)
    &&& forall|x: int, y: int|
        pt::ix(x) && pt::ix(y) ==> #[trigger] pt::has0(n, root, x, y) == has0_fresh(m, kroot, x, y)
}

/// A fresh space with the frame of saved registers at `TRAPFRAME_VA`, both
/// charged to `cg`; returns root and frame. None when a frame cannot be had,
/// and then all that was taken is given back.
#[verifier::spinoff_prover]
#[verifier::rlimit(60)]
pub fn new_space(m: &mut Mem, kroot: u64, cg: usize) -> (r: Option<(u64, u64)>)
    requires
        old(m)@.wf(),
        space::space_wf(old(m)@, kroot),
    ensures
        final(m)@.wf(),
        kernel::keeps_live(old(m)@, final(m)@),
        r is Some <==> space_cost(old(m)@, kroot) <= old(m)@.fa.room(cg),
        r matches Some((root, tf)) ==> {
            &&& built(old(m)@, final(m)@, root, tf)
            &&& old(m)@.free(tf)
            &&& copy::bare(final(m)@, root)
            &&& blank_leaves(old(m)@, final(m)@, kroot, root, tf)
            &&& final(m)@.ram[frame::fi(tf)] == frame::zero_frame()
            &&& fresh_tables(old(m)@, final(m)@, kroot, root)
            &&& final(m)@.fa.room(cg) == old(m)@.fa.room(cg) - space_cost(old(m)@, kroot)
        },
        r is None ==> given_back(old(m)@, final(m)@),
{
    let ghost m0 = m@;
    let ghost tc = kernel::table_count(m0, kroot, WORDS as int);
    let root: u64 = match kernel::new_user_space(m, kroot, cg) {
        Some(p) => p,
        None => {
            return None;
        },
    };
    let ghost m1 = m@;
    proof {
        frame::lemma_room(m1, cg);
        space::lemma_grabs_add(m0.fa, cg, 1 + tc, 1);
        let _ = frame::lemma_grabs_room(m0, cg, 1 + tc);
        frame::lemma_owners_grabs(m0, m1, cg, 1 + tc);
    }
    let tf: u64 = match frame::alloc_frame_cg(m, cg) {
        Some(p) => p,
        None => {
            teardown::free_user_space(m, root);
            proof {
                teardown::lemma_undo(m0, m1, m@, root);
            }
            return None;
        },
    };
    let ghost m2 = m@;
    proof {
        frame::law_alloc(m1, cg);
        assert(m2 == m1.grab(cg));
        lemma_grab_frame(m1, cg, root);
        assert(m1.free(tf) && m0.free(tf));
        assert forall|x: int, y: int, z: int| !(#[trigger] space::upage(m2, root, x, y, z)) by {
            assert(!space::upage(m1, root, x, y, z));
        }
        assert(m2.fa == m0.fa.grabs(cg, 1 + tc + 1));
        frame::lemma_owners_grabs(m0, m2, cg, 1 + tc + 1);
        assert(built(m0, m2, root, tf)) by {
            assert forall|t: u64| frame::in_ram(t) && !m0.free(t) implies #[trigger] m2.ram[frame::fi(t)]
                == m0.ram[frame::fi(t)] && !m2.free(t) by {
                assert(m1.ram[frame::fi(t)] == m0.ram[frame::fi(t)]);
                assert(!m1.free(t));
            }
            assert forall|t: u64| #[trigger] space::owns(m2, root, t) implies m0.free(t) by {
                assert(space::owns(m1, root, t));
            }
            assert forall|t: u64| #[trigger] m2.free(t) implies m0.free(t) by {
                assert(m1.free(t));
            }
            assert forall|t: u64| #![trigger m2.free(t)] m0.free(t) && !m2.free(t) implies space::owns(
                m2,
                root,
                t,
            ) || t == tf by {
                if !m1.free(t) {
                    assert(space::owns(m1, root, t));
                    assert(space::owns(m2, root, t));
                }
            }
        }
    }
    proof {
        space::lemma_indices(TRAPFRAME_VA);
        let (a, b) = (pt::vpn_of(TRAPFRAME_VA, 2), pt::vpn_of(TRAPFRAME_VA, 1));
        assert(pt::has1(m2, root, a) == pt::has1(m1, root, a) && pt::has1(m1, root, a) == pt::has1(m0, kroot, a));
        assert(pt::has0(m2, root, a, b) == pt::has0(m1, root, a, b) && pt::has0(m1, root, a, b) == pt::has0(
            m0,
            kroot,
            a,
            b,
        ));
        assert(pt::tables_needed(m2, root, TRAPFRAME_VA) == pt::tables_needed(m0, kroot, TRAPFRAME_VA));
    }
    let ok = pt::map_one(m, root, TRAPFRAME_VA, tf, PTE_R | PTE_W, cg);
    let ghost m3 = m@;
    proof {
        frame::lemma_room(m2, cg);
        lemma_tf_mapped(m2, m3, root, tf, ok);
        frame::lemma_owners_grabs(
            m2,
            m3,
            cg,
            pt::min_nat(pt::tables_needed(m2, root, TRAPFRAME_VA), m2.fa.room(cg)),
        );
        lemma_built_step(m0, m2, m3, root, tf);
        let _ = frame::lemma_grabs_room(m2, cg, pt::min_nat(pt::tables_needed(m2, root, TRAPFRAME_VA), m2.fa.room(cg)));
    }
    if !ok {
        frame::dealloc_frame(m, tf);
        let ghost m4 = m@;
        proof {
            frame::law_dealloc(m3, tf);
            lemma_dealloc_other(m3, root, tf);
        }
        teardown::free_user_space(m, root);
        proof {
            lemma_undone_tf(m0, m3, m4, m@, root, tf);
        }
        return None;
    }
    proof {
        assert forall|x: int| pt::ix(x) implies #[trigger] pt::has1(m3, root, x) == has1_fresh(m0, kroot, x) by {
            assert(pt::has1(m2, root, x) == pt::has1(m1, root, x));
        }
        assert forall|x: int, y: int| pt::ix(x) && pt::ix(y) implies #[trigger] pt::has0(m3, root, x, y)
            == has0_fresh(m0, kroot, x, y) by {
            assert(pt::has0(m2, root, x, y) == pt::has0(m1, root, x, y));
        }
        assert(m3.ram[frame::fi(tf)] == m2.ram[frame::fi(tf)]);
        assert forall|x: int, y: int, z: int| pt::ix(x) && pt::ix(y) && pt::ix(z) implies #[trigger] pt::leaf(
            m3,
            root,
            x,
            y,
            z,
        ) == blank_leaf(m0, kroot, tf, x, y, z) by {
            assert(pt::leaf(m2, root, x, y, z) == pt::leaf(m1, root, x, y, z));
        }
    }
    Some((root, tf))
}

/// A frame taken changes nothing in a space.
proof fn lemma_grab_frame(m: MemV, cg: usize, root: u64)
    requires
        m.wf(),
        m.fa.can_alloc(cg),
        space::space_wf(m, root),
    ensures
        space::space_wf(m.grab(cg), root),
        pt::same_leaves(m, m.grab(cg), root),
        pt::same_tables(m, m.grab(cg), root),
        forall|t: u64| #[trigger] space::owns(m.grab(cg), root, t) == space::owns(m, root, t),
        forall|t: u64|
            frame::in_ram(t) && t != m.fa.next_frame() ==> #[trigger] m.grab(cg).ram[frame::fi(t)]
                == m.ram[frame::fi(t)],
        !space::owns(m, root, m.fa.next_frame()),
        m.grab(cg).ram[frame::fi(m.fa.next_frame())] == frame::zero_frame(),
{
    let tf = m.fa.next_frame();
    let n = m.grab(cg);
    frame::law_alloc(m, cg);
    if space::owns(m, root, tf) {
        space::lemma_owned_live(m, root, tf);
    }
    assert forall|t: u64| frame::in_ram(t) && t != tf implies #[trigger] n.ram[frame::fi(t)]
        == m.ram[frame::fi(t)] by {
        pt::lemma_fi_inj(t, tf);
    }
    assert forall|t: u64| #[trigger] space::owns(m, root, t) implies n.ram[frame::fi(t)] == m.ram[frame::fi(
        t,
    )] && !n.free(t) by {
        space::lemma_owned_live(m, root, t);
    }
    space::lemma_space_kept(m, n, root);
    pt::lemma_fi_inj(tf, tf);
}

/// A frame that is not the space's, given back, changes nothing in it.
pub proof fn lemma_dealloc_other(m: MemV, root: u64, tf: u64)
    requires
        m.wf(),
        m.live(tf),
        space::space_wf(m, root),
        !space::owns(m, root, tf),
    ensures
        m.dealloc(tf).wf(),
        space::space_wf(m.dealloc(tf), root),
        pt::same_leaves(m, m.dealloc(tf), root),
        forall|t: u64| #[trigger] space::owns(m.dealloc(tf), root, t) == space::owns(m, root, t),
        forall|va: u64| va < VA_END ==> #[trigger] space::umem(m.dealloc(tf), root, va) == space::umem(m, root, va),
        forall|t: u64|
            frame::in_ram(t) && t != tf ==> #[trigger] m.dealloc(tf).ram[frame::fi(t)]
                == m.ram[frame::fi(t)],
{
    let n = m.dealloc(tf);
    frame::law_dealloc(m, tf);
    assert forall|t: u64| frame::in_ram(t) && t != tf implies #[trigger] n.ram[frame::fi(t)]
        == m.ram[frame::fi(t)] by {
        pt::lemma_fi_inj(t, tf);
    }
    assert forall|t: u64| #[trigger] space::owns(m, root, t) implies n.ram[frame::fi(t)] == m.ram[frame::fi(
        t,
    )] && !n.free(t) by {
        space::lemma_owned_live(m, root, t);
    }
    space::lemma_space_kept(m, n, root);
}

/// Giving back the frame of saved registers and then the space restores what
/// was free.
pub proof fn lemma_undone_tf(m0: MemV, m: MemV, n: MemV, k: MemV, root: u64, tf: u64)
    requires
        m0.wf(),
        built(m0, m, root, tf),
        m0.free(tf),
        n == m.dealloc(tf),
        n.wf(),
        space::space_wf(n, root),
        forall|t: u64| #[trigger] space::owns(n, root, t) == space::owns(m, root, t),
        forall|t: u64|
            frame::in_ram(t) && t != tf ==> #[trigger] n.ram[frame::fi(t)] == m.ram[frame::fi(t)],
        teardown::after_free(n, k, |t: u64| teardown::gives_back(n, root, t)),
    ensures
        given_back(m0, k),
{
    let back = |t: u64| teardown::gives_back(n, root, t);
    frame::law_dealloc(m, tf);
    assert forall|t: u64| #[trigger] k.free(t) <==> m0.free(t) by {
        teardown::lemma_back_owns(n, root, t);
        assert(k.free(t) <==> n.free(t) || back(t));
        assert(n.free(t) <==> m.free(t) || t == tf);
        assert(space::owns(n, root, t) == space::owns(m, root, t));
        assert(m.free(t) ==> m0.free(t));
    }
    assert forall|t: u64| frame::in_ram(t) && !m0.free(t) implies #[trigger] k.ram[frame::fi(t)]
        == m0.ram[frame::fi(t)] && !k.free(t) by {
        teardown::lemma_back_owns(n, root, t);
        assert(space::owns(n, root, t) == space::owns(m, root, t));
        assert(m.ram[frame::fi(t)] == m0.ram[frame::fi(t)]);
        assert(n.ram[frame::fi(t)] == m.ram[frame::fi(t)]);
        assert(!back(t));
        assert(k.free(t) <==> m0.free(t));
    }
    assert forall|t: u64| frame::in_ram(t) && !m0.free(t) implies #[trigger] k.fa.owner[frame::fi(t)]
        == m0.fa.owner[frame::fi(t)] by {
        teardown::lemma_back_owns(n, root, t);
        assert(space::owns(n, root, t) == space::owns(m, root, t));
        assert(!back(t));
        pt::lemma_fi_inj(t, tf);
        assert(m.fa.owner[frame::fi(t)] == m0.fa.owner[frame::fi(t)]);
        assert(n.fa.owner[frame::fi(t)] == m.fa.owner[frame::fi(t)]);
        assert(k.ram[frame::fi(t)] == n.ram[frame::fi(t)]);
    }
    frame::lemma_same_use(m0, k);
}

// ---- forking ----

/// Frames that a copy of a space takes below root entry `a`, up to entry `b`
/// there: its user pages, and tables that a fresh space does not have.
pub open spec fn copy1(m: MemV, kroot: u64, src: u64, a: int, b: int) -> nat
    decreases b,
{
    if b <= 0 {
        0
    } else {
        copy1(m, kroot, src, a, b - 1) + if pt::has0(m, src, a, b - 1) {
            copy::n0(m, src, a, b - 1, WORDS as int) + if has0_fresh(m, kroot, a, b - 1) {
                0nat
            } else {
                1
            }
        } else {
            0
        }
    }
}

/// The same, up to root entry `a`.
pub open spec fn copy2(m: MemV, kroot: u64, src: u64, a: int) -> nat
    decreases a,
{
    if a <= 0 {
        0
    } else {
        copy2(m, kroot, src, a - 1) + if pt::has1(m, src, a - 1) {
            copy1(m, kroot, src, a - 1, WORDS as int) + if has1_fresh(m, kroot, a - 1) {
                0nat
            } else {
                1
            }
        } else {
            0
        }
    }
}

/// Frames that a forked space takes beyond a fresh one.
pub open spec fn copy_cost(m: MemV, kroot: u64, src: u64) -> nat {
    copy2(m, kroot, src, WORDS as int)
}

proof fn lemma_n0_same(m: MemV, n: MemV, root: u64, a: int, b: int, c: int)
    requires
        pt::same_leaves(m, n, root),
        pt::ix(a),
        pt::ix(b),
        0 <= c <= WORDS,
    ensures
        copy::n0(n, root, a, b, c) == copy::n0(m, root, a, b, c),
    decreases c,
{
    if c > 0 {
        lemma_n0_same(m, n, root, a, b, c - 1);
        assert(pt::leaf(n, root, a, b, c - 1) == pt::leaf(m, root, a, b, c - 1));
    }
}

/// What a clone into a fresh space takes.
proof fn lemma_clone_need(m: MemV, n: MemV, kroot: u64, src: u64, dst: u64, a: int, b: int)
    requires
        pt::same_leaves(m, n, src),
        pt::same_tables(m, n, src),
        fresh_tables(m, n, kroot, dst),
        0 <= a <= WORDS,
        0 <= b <= WORDS,
    ensures
        copy::n2(n, src, dst, a) == copy2(m, kroot, src, a),
        a < WORDS ==> copy::n1(n, src, dst, a, b) == copy1(m, kroot, src, a, b),
    decreases a, b,
{
    if a < WORDS && b > 0 {
        lemma_clone_need(m, n, kroot, src, dst, a, b - 1);
        lemma_n0_same(m, n, src, a, b - 1, WORDS as int);
        assert(pt::has0(n, src, a, b - 1) == pt::has0(m, src, a, b - 1));
        assert(pt::has0(n, dst, a, b - 1) == has0_fresh(m, kroot, a, b - 1));
    }
    if a > 0 {
        lemma_clone_need(m, n, kroot, src, dst, a - 1, WORDS as int);
        assert(pt::has1(n, src, a - 1) == pt::has1(m, src, a - 1));
        assert(pt::has1(n, dst, a - 1) == has1_fresh(m, kroot, a - 1));
    }
}

/// A space whose frames are in use is what it was as long as what is in use
/// stays.
pub proof fn lemma_live_kept(m: MemV, n: MemV, root: u64)
    requires
        m.wf(),
        space::space_wf(m, root),
        kernel::keeps_live(m, n),
    ensures
        space::space_wf(n, root),
        pt::same_leaves(m, n, root),
        pt::same_tables(m, n, root),
        forall|va: u64| va < VA_END ==> #[trigger] space::umem(n, root, va) == space::umem(m, root, va),
        forall|t: u64| #[trigger] space::owns(n, root, t) == space::owns(m, root, t),
{
    assert forall|t: u64| #[trigger] space::owns(m, root, t) implies n.ram[frame::fi(t)] == m.ram[frame::fi(
        t,
    )] && !n.free(t) by {
        space::lemma_owned_live(m, root, t);
    }
    space::lemma_space_kept(m, n, root);
}

/// Writing to a frame that is not the space's changes nothing in it.
pub proof fn lemma_frame_written(m: MemV, root: u64, tf: u64, w: Seq<u64>)
    requires
        m.wf(),
        space::space_wf(m, root),
        m.live(tf),
        !space::owns(m, root, tf),
        w.len() == WORDS,
    ensures
        with_frame(m, tf, w).wf(),
        space::space_wf(with_frame(m, tf, w), root),
        pt::same_leaves(m, with_frame(m, tf, w), root),
        forall|va: u64|
            va < VA_END ==> #[trigger] space::umem(with_frame(m, tf, w), root, va) == space::umem(
                m,
                root,
                va,
            ),
        forall|t: u64| #[trigger]
            space::owns(with_frame(m, tf, w), root, t) == space::owns(m, root, t),
        forall|t: u64|
            frame::in_ram(t) && t != tf ==> #[trigger] with_frame(m, tf, w).ram[frame::fi(t)]
                == m.ram[frame::fi(t)],
        with_frame(m, tf, w).ram[frame::fi(tf)] == w,
{
    let n = with_frame(m, tf, w);
    assert forall|i: int| 0 <= i < n.fa.recycled.len() implies n.ram[frame::fi(#[trigger] n.fa.recycled[i])]
        == frame::zero_frame() by {
        let r = n.fa.recycled[i];
        assert(m.fa.recycled.contains(r));
        assert(m.free(r));
        pt::lemma_fi_inj(r, tf);
    }
    assert forall|t: u64| frame::in_ram(t) && t != tf implies #[trigger] n.ram[frame::fi(t)]
        == m.ram[frame::fi(t)] by {
        pt::lemma_fi_inj(t, tf);
    }
    assert forall|t: u64| #[trigger] space::owns(m, root, t) implies n.ram[frame::fi(t)] == m.ram[frame::fi(
        t,
    )] && !n.free(t) by {
        space::lemma_owned_live(m, root, t);
    }
    space::lemma_space_kept(m, n, root);
    pt::lemma_fi_inj(tf, tf);
}

/// Memory with the frame at `tf` holding `w`.
pub open spec fn with_frame(m: MemV, tf: u64, w: Seq<u64>) -> MemV {
    MemV { ram: m.ram.update(frame::fi(tf), w), ..m }
}

/// Copies the frame at `src` to the one at `dst`.
fn copy_frame(m: &mut Mem, src: u64, dst: u64)
    requires
        old(m)@.wf(),
        old(m)@.live(src),
        old(m)@.live(dst),
        src != dst,
    ensures
        final(m)@.wf(),
        final(m)@ == with_frame(old(m)@, dst, old(m)@.ram[frame::fi(src)]),
{
    let ghost m0 = m@;
    let mut i: u64 = 0;
    proof {
        pt::lemma_fi_inj(src, dst);
        assert(m0.ram.update(frame::fi(dst), m0.ram[frame::fi(dst)]) =~= m0.ram);
        assert(m0.ram[frame::fi(src)].take(0) + m0.ram[frame::fi(dst)].skip(0) =~= m0.ram[frame::fi(dst)]);
    }
    while i < 512
        invariant
            m0 == old(m)@,
            m0.wf(),
            m0.live(src),
            m0.live(dst),
            frame::fi(src) != frame::fi(dst),
            0 <= frame::fi(src) < m0.ram.len(),
            0 <= frame::fi(dst) < m0.ram.len(),
            i <= 512,
            m@.wf(),
            m@ == with_frame(
                m0,
                dst,
                m0.ram[frame::fi(src)].take(i as int) + m0.ram[frame::fi(dst)].skip(i as int),
            ),
        decreases 512 - i,
    {
        let v = pt::rd_word(m, src, i);
        pt::wr_word(m, dst, i, v);
        proof {
            let a = m0.ram[frame::fi(src)];
            let b = m0.ram[frame::fi(dst)];
            assert((a.take(i as int) + b.skip(i as int)).update(i as int, a[i as int]) =~= a.take(
                i + 1,
            ) + b.skip(i + 1));
            assert(m@.ram =~= m0.ram.update(frame::fi(dst), a.take(i + 1) + b.skip(i + 1)));
        }
        i += 1;
    }
    proof {
        let a = m0.ram[frame::fi(src)];
        let b = m0.ram[frame::fi(dst)];
        assert(a.take(512) + b.skip(512) =~= a);
    }
}

/// Where `src` has no user page, its copy under `root` is a fresh space.
pub open spec fn blank_elsewhere(m0: MemV, m: MemV, kroot: u64, src: u64, root: u64, tf: u64) -> bool {
    forall|x: int, y: int, z: int|
        pt::ix(x) && pt::ix(y) && pt::ix(z) && !space::ul(pt::leaf(m0, src, x, y, z)) ==> #[trigger] pt::leaf(
            m,
            root,
            x,
            y,
            z,
        ) == blank_leaf(m0, kroot, tf, x, y, z)
}

/// Entries of a copy: the flags of the pages it was made of, and the entries of
/// a fresh space elsewhere.
proof fn lemma_forked_leaves(m0: MemV, m1: MemV, m2: MemV, m: MemV, kroot: u64, src: u64, root: u64, tf: u64)
    requires
        pt::same_leaves(m0, m1, src),
        copy::pair_wf(m1, src, root),
        copy::bare(m1, root),
        blank_leaves(m0, m1, kroot, root, tf),
        copy::cloned(m1, m2, src, root, copy::everywhere()),
        pt::same_leaves(m2, m, root),
    ensures
        forall|va: u64| va < VA_END ==> #[trigger] uflags(m, root, va) == uflags(m0, src, va),
        blank_elsewhere(m0, m, kroot, src, root, tf),
{
    assert forall|va: u64| va < VA_END implies #[trigger] uflags(m, root, va) == uflags(m0, src, va) by {
        space::lemma_indices(va);
        let (x, y, z) = (pt::vpn_of(va, 2), pt::vpn_of(va, 1), pt::vpn_of(va, 0));
        let e = pt::leaf(m1, src, x, y, z);
        let f = pt::leaf(m2, root, x, y, z);
        assert(pt::leaf(m, root, x, y, z) == f);
        assert(copy::everywhere()(x, y, z));
        if space::ul(e) {
            copy::lemma_clone_flags(m1, m2, e, f);
        } else {
            assert(!space::upage(m1, root, x, y, z));
        }
    }
    assert forall|x: int, y: int, z: int|
        pt::ix(x) && pt::ix(y) && pt::ix(z) && !space::ul(pt::leaf(m0, src, x, y, z)) implies #[trigger] pt::leaf(
        m,
        root,
        x,
        y,
        z,
    ) == blank_leaf(m0, kroot, tf, x, y, z) by {
        assert(pt::leaf(m2, root, x, y, z) == pt::leaf(m1, root, x, y, z));
    }
}

/// A copy of the space under `src` with a copy of its saved registers in
/// which the returned value is 0; returns root and frame, none when a frame
/// cannot be had, and whether a space to copy into could be made.
#[verifier::spinoff_prover]
#[verifier::rlimit(60)]
pub fn fork_space(m: &mut Mem, kroot: u64, src: u64, src_tf: u64, cg: usize) -> (r: (Option<(u64, u64)>, bool))
    requires
        old(m)@.wf(),
        space::space_wf(old(m)@, kroot),
        space::space_wf(old(m)@, src),
        old(m)@.live(src_tf),
    ensures
        final(m)@.wf(),
        kernel::keeps_live(old(m)@, final(m)@),
        r.1 <==> space_cost(old(m)@, kroot) <= old(m)@.fa.room(cg),
        r.0 is Some <==> space_cost(old(m)@, kroot) + copy_cost(old(m)@, kroot, src) <= old(m)@.fa.room(cg),
        r.0 matches Some((root, tf)) ==> {
            &&& built(old(m)@, final(m)@, root, tf)
            &&& old(m)@.free(tf)
            &&& final(m)@.ram[frame::fi(tf)] == old(m)@.ram[frame::fi(src_tf)].update(10, 0)
            &&& forall|va: u64|
                va < VA_END ==> #[trigger] space::umem(final(m)@, root, va) == space::umem(
                    old(m)@,
                    src,
                    va,
                )
            &&& forall|va: u64|
                va < VA_END ==> #[trigger] uflags(final(m)@, root, va) == uflags(old(m)@, src, va)
            &&& blank_elsewhere(old(m)@, final(m)@, kroot, src, root, tf)
        },
        r.0 is None ==> given_back(old(m)@, final(m)@),
{
    let ghost m0 = m@;
    let (root, tf) = match new_space(m, kroot, cg) {
        Some(p) => p,
        None => {
            return (None, false);
        },
    };
    let ghost m1 = m@;
    proof {
        lemma_live_kept(m0, m1, src);
        assert forall|t: u64| #[trigger] space::owns(m1, src, t) implies !space::owns(m1, root, t) by {
            assert(space::owns(m0, src, t));
            space::lemma_owned_live(m0, src, t);
        }
        lemma_clone_need(m0, m1, kroot, src, root, WORDS as int, 0);
    }
    let ok = copy::clone_user(m, src, root, cg);
    let ghost m2 = m@;
    proof {
        frame::lemma_owners_grabs(
            m1,
            m2,
            cg,
            if ok {
                copy::n2(m1, src, root, WORDS as int)
            } else {
                m1.fa.room(cg)
            },
        );
        lemma_built_step(m0, m1, m2, root, tf);
    }
    if !ok {
        frame::dealloc_frame(m, tf);
        let ghost m3 = m@;
        proof {
            frame::law_dealloc(m2, tf);
            lemma_dealloc_other(m2, root, tf);
        }
        teardown::free_user_space(m, root);
        proof {
            lemma_undone_tf(m0, m2, m3, m@, root, tf);
        }
        return (None, true);
    }
    proof {
        assert(m2.ram[frame::fi(src_tf)] == m0.ram[frame::fi(src_tf)] && !m2.free(src_tf));
        pt::lemma_fi_inj(src_tf, tf);
    }
    copy_frame(m, src_tf, tf);
    pt::wr_word(m, tf, 10, 0);
    proof {
        let w = m0.ram[frame::fi(src_tf)].update(10, 0);
        pt::lemma_fi_inj(tf, tf);
        assert(m@.ram =~= with_frame(m2, tf, w).ram);
        assert(m@ == with_frame(m2, tf, w));
        lemma_frame_written(m2, root, tf, w);
        lemma_built_written(m0, m2, root, tf, w);
        assert forall|va: u64| va < VA_END implies #[trigger] space::umem(m@, root, va) == space::umem(
            m0,
            src,
            va,
        ) by {
            assert(space::umem(m@, root, va) == space::umem(m2, root, va));
            copy::law_clone_same_memory(m1, m2, src, root, va);
            assert(space::umem(m1, src, va) == space::umem(m0, src, va));
            space::lemma_indices(va);
            let (a, b, c) = (pt::vpn_of(va, 2), pt::vpn_of(va, 1), pt::vpn_of(va, 0));
            if space::umem(m1, src, va) is None {
                if space::ul(pt::leaf_at(m1, src, va)) {
                    assert(space::upage(m1, src, a, b, c));
                }
                assert(!space::upage(m1, root, a, b, c));
            }
        }
        lemma_forked_leaves(m0, m1, m2, m@, kroot, src, root, tf);
    }
    (Some((root, tf)), true)
}

/// Writing the frame of saved registers keeps a built space built.
pub proof fn lemma_built_written(m0: MemV, m: MemV, root: u64, tf: u64, w: Seq<u64>)
    requires
        m0.wf(),
        built(m0, m, root, tf),
        m0.free(tf),
        w.len() == WORDS,
    ensures
        built(m0, with_frame(m, tf, w), root, tf),
{
    let n = with_frame(m, tf, w);
    lemma_frame_written(m, root, tf, w);
    assert forall|t: u64| frame::in_ram(t) && !m0.free(t) implies #[trigger] n.ram[frame::fi(t)]
        == m0.ram[frame::fi(t)] && !n.free(t) by {
        assert(m.ram[frame::fi(t)] == m0.ram[frame::fi(t)]);
        assert(t != tf);
    }
    assert forall|t: u64| #[trigger] space::owns(n, root, t) implies m0.free(t) by {
        assert(space::owns(m, root, t));
    }
    assert forall|t: u64| #[trigger] n.free(t) implies m0.free(t) by {
        assert(m.free(t));
    }
    assert forall|t: u64| #![trigger n.free(t)] m0.free(t) && !n.free(t) implies space::owns(n, root, t)
        || t == tf by {
        assert(!m.free(t));
        assert(space::owns(n, root, t) == space::owns(m, root, t));
    }
}

// ---- loading ----

/// Flags of the user page at `u`; 0 where there is none.
pub open spec fn uflags(m: MemV, root: u64, u: u64) -> u64 {
    let e = pt::leaf_at(m, root, u);
    if pt::owned_leaf(e) {
        e & 0xff
    } else {
        0
    }
}

/// Flags of a page mapped for the user with permissions `flags`.
pub open spec fn page_flags(flags: u64) -> u64 {
    (flags | PTE_U) | PTE_VAD
}

/// The page of `u` is neither the kernel's nor that of the saved registers.
pub open spec fn clear_page(u: u64) -> bool {
    kernel::kernel_leaf(pt::page_down(u)) == 0 && pt::page_down(u) != TRAPFRAME_VA
}

/// Pages that are mapped but not for the user are the kernel's or that of the
/// saved registers.
pub open spec fn kernel_apart(m: MemV, root: u64) -> bool {
    forall|u: u64|
        u < VA_END && u % PAGE_SIZE == 0 && pt::translation(m, root, u) is Some && clear_page(u)
            ==> pt::user(#[trigger] pt::leaf_at(m, root, u))
}

/// A space that a process can run and trap in: the saved registers and all of
/// the kernel's pages are mapped where they belong, and nothing else that is
/// not the user's.
pub open spec fn seated(m: MemV, root: u64, tf: u64) -> bool {
    &&& pt::leaf_at(m, root, TRAPFRAME_VA) == tf_leaf(tf)
    &&& forall|u: u64|
        u < VA_END && u % PAGE_SIZE == 0 && kernel::kernel_leaf(u) != 0 ==> #[trigger] pt::leaf_at(m, root, u)
            == kernel::kernel_leaf(u)
    &&& kernel_apart(m, root)
}

/// Pages that are mapped and not the user's stay as they are.
pub open spec fn kernel_kept(m: MemV, n: MemV, root: u64) -> bool {
    forall|x: int, y: int, z: int|
        pt::ix(x) && pt::ix(y) && pt::ix(z) ==> {
            let e = #[trigger] pt::leaf(n, root, x, y, z);
            let e0 = pt::leaf(m, root, x, y, z);
            pt::valid(e0) && pt::perm(e0) && !pt::user(e0) ==> e == e0
        }
}

proof fn lemma_kept_trans(m: MemV, n: MemV, k: MemV, root: u64)
    requires
        kernel_kept(m, n, root),
        kernel_kept(n, k, root),
    ensures
        kernel_kept(m, k, root),
{
    assert forall|x: int, y: int, z: int| pt::ix(x) && pt::ix(y) && pt::ix(z) implies ({
        let e = #[trigger] pt::leaf(k, root, x, y, z);
        let e0 = pt::leaf(m, root, x, y, z);
        pt::valid(e0) && pt::perm(e0) && !pt::user(e0) ==> e == e0
    }) by {
        let e1 = pt::leaf(n, root, x, y, z);
    }
}

/// The same entries: as good a seat.
pub proof fn lemma_seated_same(m: MemV, n: MemV, root: u64, tf: u64)
    requires
        seated(m, root, tf),
        pt::same_leaves(m, n, root),
    ensures
        seated(n, root, tf),
{
    lemma_same_flags(m, n, root);
    space::lemma_indices(TRAPFRAME_VA);
    assert forall|u: u64|
        u < VA_END && u % PAGE_SIZE == 0 && kernel::kernel_leaf(u) != 0 implies #[trigger] pt::leaf_at(n, root, u)
        == kernel::kernel_leaf(u) by {
        space::lemma_indices(u);
        assert(pt::leaf_at(m, root, u) == kernel::kernel_leaf(u));
    }
}

/// A seat stays one as user pages come and change.
pub proof fn lemma_seated_kept(m: MemV, n: MemV, root: u64, tf: u64)
    requires
        seated(m, root, tf),
        frame::in_ram(tf),
        kernel_kept(m, n, root),
        kernel_apart(n, root),
    ensures
        seated(n, root, tf),
{
    lemma_tf_leaf(tf);
    space::lemma_indices(TRAPFRAME_VA);
    assert forall|u: u64|
        u < VA_END && u % PAGE_SIZE == 0 && kernel::kernel_leaf(u) != 0 implies #[trigger] pt::leaf_at(n, root, u)
        == kernel::kernel_leaf(u) by {
        space::lemma_indices(u);
        lemma_kernel_leaf(u);
        assert(pt::leaf_at(m, root, u) == kernel::kernel_leaf(u));
    }
}

/// Filling holes keeps a seat.
pub proof fn lemma_seated_filled(m: MemV, n: MemV, root: u64, tf: u64, start: u64, k: nat, flags: u64)
    requires
        m.wf(),
        seated(m, root, tf),
        frame::in_ram(tf),
        pt::perm(flags),
        flags <= 14,
        space::filled_leaves(m, n, root, start, k, flags),
    ensures
        seated(n, root, tf),
{
    assert forall|u: u64|
        u < VA_END && u % PAGE_SIZE == 0 && pt::translation(n, root, u) is Some && clear_page(u) implies pt::user(
        #[trigger] pt::leaf_at(n, root, u),
    ) by {
        space::lemma_indices(u);
        let e = pt::leaf_at(n, root, u);
        let e0 = pt::leaf_at(m, root, u);
        if e != e0 {
            lemma_page_flags(e, pt::pte_pa_of(e), flags);
        } else {
            assert(pt::translation(m, root, u) is Some);
        }
    }
    lemma_seated_kept(m, n, root, tf);
}

/// No page of the range is the kernel's or that of the saved registers.
pub open spec fn clear_range(va: u64, len: u64) -> bool {
    forall|u: u64| u < VA_END && space::in_pages(pt::page_down(va), pt::span(va, len), u) ==> #[trigger] clear_page(u)
}

/// The segment can be loaded: its bytes lie in the file, its pages in user
/// memory, and they may be read, written or executed.
pub open spec fn seg_ok(p: Prog, len: nat) -> bool {
    &&& p.flags & 7 != 0 || no_pages(p)
    &&& p.offset + p.filesz <= len
    &&& p.vaddr + p.filesz <= VA_END
    &&& p.vaddr + p.memsz <= VA_END
    &&& clear_range(p.vaddr, p.filesz)
    &&& p.memsz > p.filesz ==> clear_range((p.vaddr + p.filesz) as u64, (p.memsz - p.filesz) as u64)
}

/// A segment with nothing in it, which takes no page.
pub open spec fn no_pages(p: Prog) -> bool {
    p.filesz == 0 && p.memsz == 0 && p.vaddr % PAGE_SIZE == 0
}

/// Pages mapped for a segment.
pub open spec fn seg_pages(p: Prog, u: u64) -> bool {
    space::in_pages(pt::page_down(p.vaddr), pt::span(p.vaddr, p.filesz), u) || (p.memsz > p.filesz
        && space::in_pages(
        pt::page_down((p.vaddr + p.filesz) as u64),
        pt::span((p.vaddr + p.filesz) as u64, (p.memsz - p.filesz) as u64),
        u,
    ))
}

/// The byte at `u` once the segment is loaded over `prev`: the file's bytes,
/// zeros after them, and zeros on the rest of pages mapped for it.
pub open spec fn seg_byte(p: Prog, data: Seq<u8>, prev: Option<u8>, u: u64) -> Option<u8> {
    if p.vaddr <= u < p.vaddr + p.filesz {
        Some(data[p.offset + u - p.vaddr])
    } else if p.vaddr + p.filesz <= u < p.vaddr + p.memsz {
        Some(0)
    } else if prev is None && seg_pages(p, u) {
        Some(0)
    } else {
        prev
    }
}

/// Flags of the page of `u` once the segment is loaded over `prev`: whatever
/// is on one of its pages gains its permissions.
pub open spec fn seg_prot(p: Prog, prev: u64, u: u64) -> u64 {
    let f = elf::flags_for(p.flags);
    let q = if prev == 0 && seg_pages(p, u) {
        page_flags(f)
    } else {
        prev
    };
    if q != 0 && space::in_pages(pt::page_down(p.vaddr), pt::span(p.vaddr, p.memsz), u) {
        q | (f & 30)
    } else {
        q
    }
}

/// The byte at `u` after the first `n` segments are loaded.
pub open spec fn segs_byte(progs: Seq<Prog>, n: int, data: Seq<u8>, u: u64) -> Option<u8>
    decreases n,
{
    if n <= 0 {
        None
    } else {
        seg_byte(progs[n - 1], data, segs_byte(progs, n - 1, data, u), u)
    }
}

pub open spec fn segs_prot(progs: Seq<Prog>, n: int, u: u64) -> u64
    decreases n,
{
    if n <= 0 {
        0
    } else {
        seg_prot(progs[n - 1], segs_prot(progs, n - 1, u), u)
    }
}

/// End of the highest segment, on a page boundary.
pub open spec fn segs_end(progs: Seq<Prog>, n: int) -> int
    decreases n,
{
    if n <= 0 {
        0
    } else {
        let e = (progs[n - 1].vaddr + progs[n - 1].memsz + 0xfff) / 4096 * 4096;
        let d = segs_end(progs, n - 1);
        if e > d {
            e
        } else {
            d
        }
    }
}

/// Pages of a range by number and by index.
proof fn lemma_page_in(start: u64, k: nat, u: u64)
    requires
        u < VA_END,
        start % PAGE_SIZE == 0,
        start + k * PAGE_SIZE <= VA_END + PAGE_SIZE,
        start + k * PAGE_SIZE <= VA_END || k == 0,
    ensures
        pt::page_in(start, k, pt::vpn_of(u, 2), pt::vpn_of(u, 1), pt::vpn_of(u, 0)) == space::in_pages(
            start,
            k,
            u,
        ),
{
    if space::in_pages(start, k, u) {
        let i = (u / PAGE_SIZE - start / PAGE_SIZE) as nat;
        assert(pt::page_va(start, i) / PAGE_SIZE == u / PAGE_SIZE);
        space::lemma_same_page(pt::page_va(start, i), u);
    }
    if pt::page_in(start, k, pt::vpn_of(u, 2), pt::vpn_of(u, 1), pt::vpn_of(u, 0)) {
        let i = choose|i: nat|
            i < k && pt::vpn_of(#[trigger] pt::page_va(start, i), 2) == pt::vpn_of(u, 2) && pt::vpn_of(
                pt::page_va(start, i),
                1,
            ) == pt::vpn_of(u, 1) && pt::vpn_of(pt::page_va(start, i), 0) == pt::vpn_of(u, 0);
        assert(start + i * PAGE_SIZE < VA_END);
        space::lemma_same_page(pt::page_va(start, i), u);
        assert(pt::page_va(start, i) / PAGE_SIZE == start / PAGE_SIZE + i);
    }
}

/// A range below `VA_END` covers pages below it.
proof fn lemma_span(va: u64, len: u64)
    requires
        va + len <= VA_END,
    ensures
        pt::page_down(va) % PAGE_SIZE == 0,
        pt::page_down(va) + pt::span(va, len) * PAGE_SIZE <= VA_END,
{
    let e = (va + len + PAGE_SIZE - 1) / (PAGE_SIZE as int);
    assert(e * 4096 <= va + len + 4095);
    assert(e <= 0x800_0000);
}

/// Bits of a page mapped for the user.
proof fn lemma_page_flags(e: u64, pa: u64, flags: u64)
    requires
        e == pt::pte_new_of(pa, page_flags(flags)),
        frame::in_ram(pa),
        pt::perm(flags),
        flags <= 14,
    ensures
        pt::owned_leaf(e),
        e & 0xff == page_flags(flags),
        page_flags(flags) != 0,
{
    let f = page_flags(flags);
    let q = pa >> 12;
    assert(f & 1 != 0 && f & 16 != 0 && f & 14 == flags & 14 && f != 0 && ((q << 10) | (f & 0x3ff)) & 0xff
        == f) by (bit_vector)
        requires
            f == (flags | 16) | 193,
            flags <= 14,
    ;
    pt::lemma_pte_bits(pa, f);
}

/// Bits of an entry that gains permissions.
pub proof fn lemma_protected(e: u64, f: u64)
    requires
        pt::owned_leaf(e),
    ensures
        pt::owned_leaf(pt::protected(e, f)),
        pt::pte_pa_of(pt::protected(e, f)) == pt::pte_pa_of(e),
        pt::protected(e, f) & 0xff == (e & 0xff) | (f & 30),
        e & 0xff != 0,
{
    let g = e | (f & 30);
    assert(g & 1 != 0 && g & 16 != 0 && g & 14 != 0 && ((g >> 10) & 0xfff_ffff_ffff) == ((e >> 10)
        & 0xfff_ffff_ffff) && g & 0xff == (e & 0xff) | (f & 30) && e & 0xff != 0) by (bit_vector)
        requires
            g == e | (f & 30),
            e & 1 != 0,
            e & 16 != 0,
            e & 14 != 0,
    ;
}

/// Filling holes maps them with the given permissions and changes no flags
/// elsewhere.
proof fn lemma_fill_flags(m: MemV, n: MemV, root: u64, va: u64, len: u64, flags: u64)
    requires
        m.wf(),
        space::space_wf(m, root),
        va + len <= VA_END,
        pt::perm(flags),
        flags <= 14,
        kernel_apart(m, root),
        clear_range(va, len),
        space::filled_leaves(m, n, root, pt::page_down(va), pt::span(va, len), flags),
    ensures
        kernel_apart(n, root),
        forall|u: u64|
            u < VA_END ==> #[trigger] uflags(n, root, u) == if uflags(m, root, u) == 0 && space::in_pages(
                pt::page_down(va),
                pt::span(va, len),
                u,
            ) {
                page_flags(flags)
            } else {
                uflags(m, root, u)
            },
{
    let start = pt::page_down(va);
    let k = pt::span(va, len);
    lemma_span(va, len);
    assert forall|u: u64| u < VA_END implies #[trigger] uflags(n, root, u) == (if uflags(m, root, u) == 0
        && space::in_pages(start, k, u) {
        page_flags(flags)
    } else {
        uflags(m, root, u)
    }) by {
        space::lemma_indices(u);
        lemma_page_in(start, k, u);
        let (x, y, z) = (pt::vpn_of(u, 2), pt::vpn_of(u, 1), pt::vpn_of(u, 0));
        let e = pt::leaf(n, root, x, y, z);
        let e0 = pt::leaf(m, root, x, y, z);
        if space::in_pages(start, k, u) {
            if pt::valid(e0) && pt::perm(e0) {
                let v = pt::page_down(u);
                space::lemma_same_page(u, v);
                space::lemma_indices(v);
                assert(clear_page(u));
                assert(pt::leaf_at(m, root, v) == e0);
                assert(clear_page(v));
                assert(pt::user(e0));
                lemma_protected(e0, 0);
            } else {
                lemma_page_flags(e, pt::pte_pa_of(e), flags);
            }
        }
    }
    assert forall|u: u64|
        u < VA_END && u % PAGE_SIZE == 0 && pt::translation(n, root, u) is Some && clear_page(u) implies pt::user(
        #[trigger] pt::leaf_at(n, root, u),
    ) by {
        space::lemma_indices(u);
        lemma_page_in(start, k, u);
        let e = pt::leaf_at(n, root, u);
        let e0 = pt::leaf_at(m, root, u);
        if e != e0 {
            lemma_page_flags(e, pt::pte_pa_of(e), flags);
        } else {
            assert(pt::translation(m, root, u) is Some);
        }
    }
}

/// Only user pages may lie in a clear range.
proof fn lemma_clear_user(m: MemV, root: u64, va: u64, len: u64)
    requires
        va + len <= VA_END,
        kernel_apart(m, root),
        clear_range(va, len),
    ensures
        space::user_range(m, root, pt::page_down(va), pt::span(va, len)),
{
    lemma_span(va, len);
    let start = pt::page_down(va);
    let k = pt::span(va, len);
    assert forall|i: nat|
        i < k && pt::translation(m, root, #[trigger] pt::page_va(start, i)) is Some implies pt::user(
        pt::leaf_at(m, root, pt::page_va(start, i)),
    ) by {
        let u = pt::page_va(start, i);
        assert(start + i * PAGE_SIZE < VA_END);
        assert(u / PAGE_SIZE == start / PAGE_SIZE + i);
        assert(space::in_pages(start, k, u));
        assert(clear_page(u));
    }
}

/// After permissions are added to a range.
proof fn lemma_after_protect(m: MemV, n: MemV, root: u64, va: u64, len: u64, flags: u64)
    requires
        m.wf(),
        n.wf(),
        n.fa == m.fa,
        space::space_wf(m, root),
        va + len <= VA_END,
        kernel_apart(m, root),
        pt::tables_wf(n, root),
        pt::only_grows(m, n, root),
        pt::tight(m, n, root),
        forall|x: int, y: int, z: int|
            pt::ix(x) && pt::ix(y) && pt::ix(z) ==> #[trigger] pt::leaf(n, root, x, y, z) == if pt::page_in(
                pt::page_down(va),
                pt::span(va, len),
                x,
                y,
                z,
            ) {
                pt::protected(pt::leaf(m, root, x, y, z), flags)
            } else {
                pt::leaf(m, root, x, y, z)
            },
    ensures
        space::space_wf(n, root),
        space::space_only(m, n, root),
        kernel_apart(n, root),
        forall|u: u64| u < VA_END ==> #[trigger] space::umem(n, root, u) == space::umem(m, root, u),
        forall|u: u64|
            u < VA_END ==> #[trigger] uflags(n, root, u) == if uflags(m, root, u) != 0 && space::in_pages(
                pt::page_down(va),
                pt::span(va, len),
                u,
            ) {
                uflags(m, root, u) | (flags & 30)
            } else {
                uflags(m, root, u)
            },
{
    let start = pt::page_down(va);
    let k = pt::span(va, len);
    lemma_span(va, len);
    assert forall|x: int, y: int, z: int| pt::ix(x) && pt::ix(y) && pt::ix(z) implies ({
        let e = #[trigger] pt::leaf(n, root, x, y, z);
        let e0 = pt::leaf(m, root, x, y, z);
        &&& pt::owned_leaf(e) == pt::owned_leaf(e0)
        &&& pt::owned_leaf(e0) ==> pt::pte_pa_of(e) == pt::pte_pa_of(e0)
        &&& !pt::owned_leaf(e0) ==> e == e0
    }) by {
        let e0 = pt::leaf(m, root, x, y, z);
        if pt::owned_leaf(e0) {
            lemma_protected(e0, flags);
        }
    }
    assert forall|x: int, y: int, z: int| #[trigger]
        space::upage(n, root, x, y, z) == space::upage(m, root, x, y, z) && (space::upage(m, root, x, y, z)
            ==> space::upa(n, root, x, y, z) == space::upa(m, root, x, y, z) && pt::perm(
            pt::leaf(n, root, x, y, z),
        )) by {
        if pt::ix(x) && pt::ix(y) && pt::ix(z) {
            let e = pt::leaf(n, root, x, y, z);
            let e0 = pt::leaf(m, root, x, y, z);
            assert(pt::owned_leaf(e) == pt::owned_leaf(e0));
            if space::upage(m, root, x, y, z) {
                assert(pt::owned_leaf(e0));
            }
        }
    }
    assert forall|t: u64| #[trigger] pt::is_table(n, root, t) == pt::is_table(m, root, t) by {
        if pt::is_table(n, root, t) && !pt::is_table(m, root, t) {
            assert(m.free(t));
            assert(space::owns(n, root, t));
            assert(n.free(t));
            lemma_table_live(n, root, t);
        }
    }
    assert(space::upages_wf(n, root)) by {
        assert forall|a: int, b: int, c: int| #[trigger] space::upage(n, root, a, b, c) implies n.live(
            space::upa(n, root, a, b, c),
        ) && !pt::is_table(n, root, space::upa(n, root, a, b, c)) && pt::perm(
            pt::leaf(n, root, a, b, c),
        ) by {
            assert(space::upage(m, root, a, b, c));
        }
        assert forall|a: int, b: int, c: int, x: int, y: int, z: int| #[trigger]
            space::upage(n, root, a, b, c) && #[trigger] space::upage(n, root, x, y, z) && (a != x || b != y
                || c != z) implies space::upa(n, root, a, b, c) != space::upa(n, root, x, y, z) by {
            assert(space::upage(m, root, a, b, c) && space::upage(m, root, x, y, z));
        }
    }
    assert forall|t: u64| #[trigger] space::owns(n, root, t) == space::owns(m, root, t) by {
        if space::owns(n, root, t) && !pt::is_table(n, root, t) {
            let (a, b, c) = choose|a: int, b: int, c: int| #[trigger]
                space::upage(n, root, a, b, c) && space::upa(n, root, a, b, c) == t;
            assert(space::upage(m, root, a, b, c));
        }
        if space::owns(m, root, t) && !pt::is_table(m, root, t) {
            let (a, b, c) = choose|a: int, b: int, c: int| #[trigger]
                space::upage(m, root, a, b, c) && space::upa(m, root, a, b, c) == t;
            assert(space::upage(n, root, a, b, c));
        }
    }
    assert forall|u: u64| u < VA_END implies #[trigger] space::umem(n, root, u) == space::umem(m, root, u) by {
        space::lemma_indices(u);
        let (x, y, z) = (pt::vpn_of(u, 2), pt::vpn_of(u, 1), pt::vpn_of(u, 0));
        let e = pt::leaf(n, root, x, y, z);
        let e0 = pt::leaf(m, root, x, y, z);
        assert(pt::owned_leaf(e) == pt::owned_leaf(e0));
        if pt::owned_leaf(e0) {
            assert(space::upage(m, root, x, y, z));
            let t = pt::pte_pa_of(e0);
            assert(m.live(t) && !pt::is_table(m, root, t));
            assert(n.ram[frame::fi(t)] == m.ram[frame::fi(t)]);
            space::lemma_page_off(t, u % PAGE_SIZE);
        }
    }
    assert forall|u: u64| u < VA_END implies #[trigger] uflags(n, root, u) == (if uflags(m, root, u) != 0
        && space::in_pages(start, k, u) {
        uflags(m, root, u) | (flags & 30)
    } else {
        uflags(m, root, u)
    }) by {
        space::lemma_indices(u);
        lemma_page_in(start, k, u);
        let e0 = pt::leaf_at(m, root, u);
        if pt::owned_leaf(e0) {
            lemma_protected(e0, flags);
        }
    }
    assert forall|u: u64|
        u < VA_END && u % PAGE_SIZE == 0 && pt::translation(n, root, u) is Some && clear_page(u) implies pt::user(
        #[trigger] pt::leaf_at(n, root, u),
    ) by {
        space::lemma_indices(u);
        let (x, y, z) = (pt::vpn_of(u, 2), pt::vpn_of(u, 1), pt::vpn_of(u, 0));
        let e = pt::leaf(n, root, x, y, z);
        let e0 = pt::leaf(m, root, x, y, z);
        assert(pt::owned_leaf(e) == pt::owned_leaf(e0));
        if !pt::owned_leaf(e0) {
            assert(pt::leaf_at(m, root, u) == e0);
            assert(pt::translation(m, root, u) is Some);
        }
    }
}

proof fn lemma_table_live(m: MemV, root: u64, t: u64)
    requires
        pt::tables_wf(m, root),
        pt::is_table(m, root, t),
    ensures
        m.live(t),
{
}

/// Loads one segment: maps its pages, copies its bytes, zeroes what follows
/// them, and adds its permissions to all its pages. False when a frame cannot
/// be had.
#[verifier::spinoff_prover]
#[verifier::rlimit(60)]
fn load_seg(m: &mut Mem, root: u64, p: &Prog, data: &[u8], cg: usize, Ghost(form): Ghost<shape::Shape>) -> (ok: bool)
    requires
        old(m)@.wf(),
        space::space_wf(old(m)@, root),
        shape::shaped(old(m)@, root, form),
        kernel_apart(old(m)@, root),
        seg_ok(*p, data@.len()),
    ensures
        final(m)@.wf(),
        space::space_wf(final(m)@, root),
        space::space_only(old(m)@, final(m)@, root),
        frame::owners_kept(old(m)@, final(m)@),
        ok == (need::seg_need(form, *p) <= old(m)@.fa.room(cg)),
        ok ==> {
            &&& kernel_apart(final(m)@, root)
            &&& kernel_kept(old(m)@, final(m)@, root)
            &&& final(m)@.fa.room(cg) == old(m)@.fa.room(cg) - need::seg_need(form, *p)
            &&& shape::shaped(final(m)@, root, need::seg_shape(form, *p))
            &&& forall|u: u64|
                u < VA_END ==> #[trigger] space::umem(final(m)@, root, u) == seg_byte(
                    *p,
                    data@,
                    space::umem(old(m)@, root, u),
                    u,
                )
            &&& forall|u: u64|
                u < VA_END ==> #[trigger] uflags(final(m)@, root, u) == seg_prot(
                    *p,
                    uflags(old(m)@, root, u),
                    u,
                )
        },
{
    let ghost m0 = m@;
    if p.filesz == 0 && p.memsz == 0 && p.vaddr % PAGE_SIZE == 0 {
        proof {
            assert(pt::span(p.vaddr, 0) == 0);
            shape::lemma_none_grown(form, pt::page_down(p.vaddr));
        }
        return true;
    }
    let flags = elf::pte_flags_for(p.flags);
    proof {
        elf::lemma_flags_perm(p.flags);
    }
    let n: usize = data.len();
    let lo: usize = p.offset as usize;
    let hi: usize = (p.offset + p.filesz) as usize;
    let part = vstd::slice::slice_subrange(data, lo, hi);
    assert(part@.len() == p.filesz);
    proof {
        lemma_clear_user(m0, root, p.vaddr, p.filesz);
        lemma_span(p.vaddr, p.filesz);
        shape::lemma_range_need(m0, root, form, pt::page_down(p.vaddr), pt::span(p.vaddr, p.filesz));
    }
    if !space::map_user(m, root, p.vaddr, part, flags, cg) {
        return false;
    }
    let ghost m1 = m@;
    proof {
        lemma_fill_flags(m0, m1, root, p.vaddr, p.filesz, flags);
        let _ = frame::lemma_grabs_room(
            m0,
            cg,
            space::user_need(m0, root, pt::page_down(p.vaddr), pt::span(p.vaddr, p.filesz)),
        );
        assert forall|u: u64| u < VA_END implies (#[trigger] space::umem(m1, root, u) is Some) == (space::umem(
            m0,
            root,
            u,
        ) is Some || space::in_pages(pt::page_down(p.vaddr), pt::span(p.vaddr, p.filesz), u)) by {}
        shape::lemma_grown(m0, m1, root, form, pt::page_down(p.vaddr), pt::span(p.vaddr, p.filesz));
    }
    let ghost form1 = need::file_shape(form, *p);
    if p.memsz > p.filesz {
        let zb: u64 = p.vaddr + p.filesz;
        let zl: u64 = p.memsz - p.filesz;
        proof {
            lemma_clear_user(m1, root, zb, zl);
            lemma_span(zb, zl);
            shape::lemma_range_need(m1, root, form1, pt::page_down(zb), pt::span(zb, zl));
        }
        if !space::alloc_map_user(m, root, zb, zl, flags, cg) {
            proof {
                space::lemma_only_trans(m0, m1, m@, root);
                frame::lemma_owners_trans(m0, m1, m@);
            }
            return false;
        }
        let ghost m2 = m@;
        proof {
            lemma_fill_flags(m1, m2, root, zb, zl, flags);
            assert(kernel_kept(m1, m2, root));
            lemma_kept_trans(m0, m1, m2, root);
            let _ = frame::lemma_grabs_room(
                m1,
                cg,
                space::user_need(m1, root, pt::page_down(zb), pt::span(zb, zl)),
            );
            space::lemma_only_trans(m0, m1, m2, root);
            frame::lemma_owners_trans(m0, m1, m2);
            assert forall|u: u64| u < VA_END implies (#[trigger] space::umem(m2, root, u) is Some) == (
            space::umem(m1, root, u) is Some || space::in_pages(pt::page_down(zb), pt::span(zb, zl), u)) by {}
            shape::lemma_grown(m1, m2, root, form1, pt::page_down(zb), pt::span(zb, zl));
            assert forall|u: u64| zb <= u < zb + zl implies #[trigger] space::umem(m2, root, u) is Some by {
                assert(space::in_pages(pt::page_down(zb), pt::span(zb, zl), u));
            }
        }
        zero_user(m, root, zb, zl);
        proof {
            space::lemma_only_trans(m0, m2, m@, root);
            lemma_same_flags(m2, m@, root);
            lemma_kept_trans(m0, m2, m@, root);
            assert forall|u: u64| u < VA_END implies (#[trigger] space::umem(m@, root, u) is Some) == (
            space::umem(m2, root, u) is Some) by {}
            shape::lemma_shape_kept(m2, m@, root, need::seg_shape(form, *p));
        }
    }
    let ghost m3 = m@;
    pt::protect(m, root, p.vaddr, p.memsz, flags);
    proof {
        lemma_after_protect(m3, m@, root, p.vaddr, p.memsz, flags);
        lemma_kept_trans(m0, m3, m@, root);
        space::lemma_only_trans(m0, m3, m@, root);
        shape::lemma_shape_kept(m3, m@, root, need::seg_shape(form, *p));
        assert forall|u: u64| u < VA_END implies #[trigger] space::umem(m@, root, u) == seg_byte(
            *p,
            data@,
            space::umem(m0, root, u),
            u,
        ) by {
            assert(space::umem(m@, root, u) == space::umem(m3, root, u));
            assert(space::umem(m1, root, u) is Some || space::umem(m1, root, u) is None);
        }
        assert forall|u: u64| u < VA_END implies #[trigger] uflags(m@, root, u) == seg_prot(
            *p,
            uflags(m0, root, u),
            u,
        ) by {
            assert(uflags(m3, root, u) >= 0);
            assert(uflags(m1, root, u) >= 0);
            elf::lemma_flags_perm(p.flags);
            lemma_page_flags_nonzero(flags);
        }
    }
    true
}

proof fn lemma_page_flags_nonzero(flags: u64)
    ensures
        page_flags(flags) != 0,
{
    pt::lemma_flag_consts();
    assert(pt::valid((flags | PTE_U) | PTE_VAD));
    assert(!pt::valid(0));
}

/// Same entries, same flags.
proof fn lemma_same_flags(m: MemV, n: MemV, root: u64)
    requires
        pt::same_leaves(m, n, root),
    ensures
        forall|u: u64| u < VA_END ==> #[trigger] uflags(n, root, u) == uflags(m, root, u),
        kernel_apart(m, root) ==> kernel_apart(n, root),
{
    assert forall|u: u64| u < VA_END implies #[trigger] uflags(n, root, u) == uflags(m, root, u) by {
        space::lemma_indices(u);
    }
    if kernel_apart(m, root) {
        assert forall|u: u64|
            u < VA_END && u % PAGE_SIZE == 0 && pt::translation(n, root, u) is Some && clear_page(
                u,
            ) implies pt::user(#[trigger] pt::leaf_at(n, root, u)) by {
            space::lemma_indices(u);
            assert(pt::leaf_at(m, root, u) == pt::leaf_at(n, root, u));
        }
    }
}

/// Zeroes user memory that is mapped.
fn zero_user(m: &mut Mem, root: u64, va: u64, len: u64)
    requires
        old(m)@.wf(),
        space::space_wf(old(m)@, root),
        va + len <= VA_END,
        space::backed(old(m)@, root, va, len as nat),
    ensures
        final(m)@.wf(),
        final(m)@.fa == old(m)@.fa,
        space::space_wf(final(m)@, root),
        space::space_only(old(m)@, final(m)@, root),
        pt::same_leaves(old(m)@, final(m)@, root),
        pt::same_tables(old(m)@, final(m)@, root),
        forall|u: u64|
            u < VA_END ==> #[trigger] space::umem(final(m)@, root, u) == if va <= u < va + len {
                Some(0u8)
            } else {
                space::umem(old(m)@, root, u)
            },
{
    let ghost m0 = m@;
    let mut k: u64 = 0;
    proof {
        space::lemma_only_refl(m0, root);
    }
    while k < len
        invariant
            m0 == old(m)@,
            k <= len,
            va + len <= VA_END,
            m@.wf(),
            m@.fa == m0.fa,
            space::space_wf(m@, root),
            space::space_only(m0, m@, root),
            pt::same_leaves(m0, m@, root),
            pt::same_tables(m0, m@, root),
            space::backed(m0, root, va, len as nat),
            forall|u: u64|
                u < VA_END ==> #[trigger] space::umem(m@, root, u) == if va <= u < va + k {
                    Some(0u8)
                } else {
                    space::umem(m0, root, u)
                },
        decreases len - k,
    {
        let ghost m1 = m@;
        assert(space::umem(m0, root, (va + k) as u64) is Some);
        assert(space::umem(m1, root, (va + k) as u64) is Some);
        space::write_byte_to(m, root, va + k, 0);
        proof {
            space::lemma_only_trans(m0, m1, m@, root);
            copy::lemma_leaves_trans(m0, m1, m@, root);
            pt::lemma_tables_trans(m0, m1, m@, root);
            assert forall|u: u64| u < VA_END implies #[trigger] space::umem(m@, root, u) == (if va <= u < va
                + k + 1 {
                Some(0u8)
            } else {
                space::umem(m0, root, u)
            }) by {
                assert(space::umem(m1, root, u) == (if va <= u < va + k {
                    Some(0u8)
                } else {
                    space::umem(m0, root, u)
                }));
            }
        }
        k += 1;
    }
}

/// The byte at `u` of a loaded program before its arguments are laid down.
pub open spec fn image_byte(progs: Seq<Prog>, data: Seq<u8>, u: u64) -> Option<u8> {
    let b = segs_byte(progs, progs.len() as int, data, u);
    if b is None && USER_STACK_TOP - USER_STACK_PAGES * PAGE_SIZE <= u < USER_STACK_TOP {
        Some(0)
    } else {
        b
    }
}

/// Flags of the page of `u` of a loaded program: the segments', and a stack to
/// read and write.
pub open spec fn image_prot(progs: Seq<Prog>, u: u64) -> u64 {
    let f = segs_prot(progs, progs.len() as int, u);
    if f == 0 && USER_STACK_TOP - USER_STACK_PAGES * PAGE_SIZE <= u < USER_STACK_TOP {
        page_flags(PTE_R | PTE_W)
    } else {
        f
    }
}

/// Every segment can be loaded.
pub open spec fn segs_ok(progs: Seq<Prog>, len: nat) -> bool {
    forall|i: int| 0 <= i < progs.len() ==> seg_ok(#[trigger] progs[i], len)
}

/// No user page: nothing to read, no flags.
proof fn lemma_bare_empty(m: MemV, root: u64)
    requires
        copy::bare(m, root),
    ensures
        forall|u: u64| u < VA_END ==> #[trigger] space::umem(m, root, u) is None,
        forall|u: u64| u < VA_END ==> #[trigger] uflags(m, root, u) == 0,
{
    assert forall|u: u64| u < VA_END implies #[trigger] space::umem(m, root, u) is None && uflags(m, root, u)
        == 0 by {
        space::lemma_indices(u);
        assert(!space::upage(m, root, pt::vpn_of(u, 2), pt::vpn_of(u, 1), pt::vpn_of(u, 0)));
    }
    assert forall|u: u64| u < VA_END implies #[trigger] uflags(m, root, u) == 0 by {
        assert(space::umem(m, root, u) is None);
    }
}

/// The stack lies in clear pages.
proof fn lemma_stack_clear()
    ensures
        clear_range(
            (USER_STACK_TOP - USER_STACK_PAGES * PAGE_SIZE) as u64,
            (USER_STACK_PAGES * PAGE_SIZE) as u64,
        ),
        pt::span(
            (USER_STACK_TOP - USER_STACK_PAGES * PAGE_SIZE) as u64,
            (USER_STACK_PAGES * PAGE_SIZE) as u64,
        ) == USER_STACK_PAGES,
        pt::page_down((USER_STACK_TOP - USER_STACK_PAGES * PAGE_SIZE) as u64) == USER_STACK_TOP
            - USER_STACK_PAGES * PAGE_SIZE,
{
}

/// Loads the segments of a program and its stack into a space without user
/// pages, and lays its arguments down. Returns the stack pointer and the end
/// of the segments; None when a frame cannot be had.
#[verifier::spinoff_prover]
#[verifier::rlimit(60)]
pub fn load_image(
    m: &mut Mem,
    root: u64,
    info: &ElfInfo,
    data: &[u8],
    args: &Vec<Vec<u8>>,
    env: &Vec<Vec<u8>>,
    cg: usize,
) -> (r: Option<(u64, u64)>)
    requires
        old(m)@.wf(),
        space::space_wf(old(m)@, root),
        copy::bare(old(m)@, root),
        kernel_apart(old(m)@, root),
        segs_ok(info.progs@, data@.len()),
    ensures
        final(m)@.wf(),
        space::space_wf(final(m)@, root),
        space::space_only(old(m)@, final(m)@, root),
        frame::owners_kept(old(m)@, final(m)@),
        r is Some <==> need::image_need(shape::bare_shape(old(m)@, root), info.progs@) <= old(m)@.fa.room(cg),
        r matches Some((sp, end)) ==> {
            &&& sp == args::sp_of(args::strs_of(args@), args::strs_of(env@))
            &&& end == segs_end(info.progs@, info.progs@.len() as int)
            &&& args::laid(
                |u: u64| image_byte(info.progs@, data@, u),
                final(m)@,
                root,
                args::strs_of(args@),
                args::strs_of(env@),
            )
            &&& forall|u: u64|
                u < VA_END ==> #[trigger] uflags(final(m)@, root, u) == image_prot(info.progs@, u)
            &&& kernel_kept(old(m)@, final(m)@, root)
            &&& kernel_apart(final(m)@, root)
        },
{
    let ghost m0 = m@;
    let ghost form = shape::bare_shape(m0, root);
    let ghost count = info.progs@.len() as int;
    let mut end: u64 = 0;
    let mut i: usize = 0;
    proof {
        space::lemma_only_refl(m0, root);
        lemma_bare_empty(m0, root);
        shape::lemma_bare_shaped(m0, root);
    }
    while i < info.progs.len()
        invariant
            m0 == old(m)@,
            i <= info.progs@.len(),
            segs_ok(info.progs@, data@.len()),
            m@.wf(),
            space::space_wf(m@, root),
            space::space_only(m0, m@, root),
            frame::owners_kept(m0, m@),
            kernel_apart(m@, root),
            kernel_kept(m0, m@, root),
            end == segs_end(info.progs@, i as int),
            form == shape::bare_shape(m0, root),
            count == info.progs@.len(),
            shape::shaped(m@, root, need::segs_shape(form, info.progs@, i as int)),
            m@.fa.room(cg) == m0.fa.room(cg) - need::segs_need(form, info.progs@, i as int),
            forall|u: u64|
                u < VA_END ==> #[trigger] space::umem(m@, root, u) == segs_byte(
                    info.progs@,
                    i as int,
                    data@,
                    u,
                ),
            forall|u: u64|
                u < VA_END ==> #[trigger] uflags(m@, root, u) == segs_prot(info.progs@, i as int, u),
        decreases info.progs@.len() - i,
    {
        let ghost m1 = m@;
        let p = info.progs[i];
        assert(seg_ok(info.progs@[i as int], data@.len()));
        proof {
            need::lemma_segs_mono(form, info.progs@, i + 1, count);
        }
        if !load_seg(m, root, &p, data, cg, Ghost(need::segs_shape(form, info.progs@, i as int))) {
            proof {
                space::lemma_only_trans(m0, m1, m@, root);
                frame::lemma_owners_trans(m0, m1, m@);
            }
            return None;
        }
        proof {
            space::lemma_only_trans(m0, m1, m@, root);
            frame::lemma_owners_trans(m0, m1, m@);
            lemma_kept_trans(m0, m1, m@, root);
            assert forall|u: u64| u < VA_END implies #[trigger] space::umem(m@, root, u) == segs_byte(
                info.progs@,
                i + 1,
                data@,
                u,
            ) by {
                assert(space::umem(m1, root, u) == segs_byte(info.progs@, i as int, data@, u));
            }
            assert forall|u: u64| u < VA_END implies #[trigger] uflags(m@, root, u) == segs_prot(
                info.progs@,
                i + 1,
                u,
            ) by {
                assert(uflags(m1, root, u) == segs_prot(info.progs@, i as int, u));
            }
        }
        let e: u64 = (p.vaddr + p.memsz + 0xfff) / PAGE_SIZE * PAGE_SIZE;
        if e > end {
            end = e;
        }
        i += 1;
    }
    let ghost m1 = m@;
    let base: u64 = USER_STACK_TOP - USER_STACK_PAGES * PAGE_SIZE;
    let size: u64 = USER_STACK_PAGES * PAGE_SIZE;
    proof {
        lemma_stack_clear();
        lemma_clear_user(m1, root, base, size);
        shape::lemma_range_need(
            m1,
            root,
            need::segs_shape(form, info.progs@, count),
            base,
            USER_STACK_PAGES as nat,
        );
        assert((PTE_R | PTE_W) == 6u64) by (bit_vector);
        assert(6u64 & 14 == 6u64) by (bit_vector);
    }
    if !space::alloc_map_user(m, root, base, size, PTE_R | PTE_W, cg) {
        proof {
            space::lemma_only_trans(m0, m1, m@, root);
            frame::lemma_owners_trans(m0, m1, m@);
        }
        return None;
    }
    let ghost m2 = m@;
    proof {
        space::lemma_only_trans(m0, m1, m2, root);
        frame::lemma_owners_trans(m0, m1, m2);
        lemma_fill_flags(m1, m2, root, base, size, PTE_R | PTE_W);
        lemma_kept_trans(m0, m1, m2, root);
        assert forall|u: u64| u < VA_END implies #[trigger] space::umem(m2, root, u) == image_byte(
            info.progs@,
            data@,
            u,
        ) by {
            assert(space::umem(m1, root, u) == segs_byte(info.progs@, info.progs@.len() as int, data@, u));
        }
        assert forall|u: u64| u < VA_END implies #[trigger] uflags(m2, root, u) == image_prot(
            info.progs@,
            u,
        ) by {
            assert(uflags(m1, root, u) == segs_prot(info.progs@, info.progs@.len() as int, u));
        }
        assert forall|u: u64|
            (USER_STACK_TOP - args::ARG_AREA) as u64 <= u < (USER_STACK_TOP - args::ARG_AREA) as u64
                + args::ARG_AREA implies #[trigger] space::umem(m2, root, u) is Some by {}
    }
    let sp = args::push_args(m, root, args, env);
    proof {
        space::lemma_only_trans(m0, m2, m@, root);
        lemma_same_flags(m2, m@, root);
        lemma_kept_trans(m0, m2, m@, root);
        args::lemma_layout(args::strs_of(args@), args::strs_of(env@));
        let strs = args::all_strs(args::strs_of(args@), args::strs_of(env@));
        assert forall|u: u64|
            u < VA_END && (u < sp || sp + 8 * args::table(
                args::strs_of(args@),
                args::strs_of(env@),
            ).len() <= u < args::addr_of(strs, strs.len() as int) || USER_STACK_TOP
                <= u) implies #[trigger] space::umem(m@, root, u) == (|u: u64|
            image_byte(info.progs@, data@, u))(u) by {
            assert(args::seen(m2, root)(u) == space::umem(m2, root, u));
        }
    }
    Some((sp, end))
}
/// A kernel page is not clear.
proof fn lemma_not_clear(u: u64)
    requires
        u < VA_END,
        u % PAGE_SIZE == 0,
        (frame::RAM_BASE <= u < frame::MEMORY_END) || (kernel::MMIO_START <= u < kernel::MMIO_END) || (
        kernel::PLIC_START <= u < kernel::PLIC_END) || u == TRAPFRAME_VA,
    ensures
        !clear_page(u),
{
    pt::lemma_flag_consts();
    pt::lemma_pte_bits(u, pt::PTE_RWX | PTE_VAD);
    pt::lemma_pte_bits(u, (PTE_R | PTE_W) | PTE_VAD);
    assert(pt::valid(pt::PTE_RWX | PTE_VAD));
    assert(pt::valid((PTE_R | PTE_W) | PTE_VAD));
}

/// Page numbers `[lo, hi)` and addresses `[a, b)`, on page boundaries, meet.
fn meets(lo: u64, hi: u64, a: u64, b: u64) -> (r: bool)
    requires
        lo < hi <= 0x800_0000,
        a < b <= VA_END,
        a % PAGE_SIZE == 0,
        b % PAGE_SIZE == 0,
    ensures
        r ==> exists|u: u64|
            u < VA_END && u % PAGE_SIZE == 0 && lo <= u / PAGE_SIZE < hi && a <= u < b && #[trigger] pt::page_down(
                u,
            ) == u,
        !r ==> forall|u: u64|
            #![trigger pt::page_down(u)]
            lo <= u / PAGE_SIZE < hi ==> !(a <= pt::page_down(u) < b),
{
    let p: u64 = if lo * PAGE_SIZE < a {
        a
    } else {
        lo * PAGE_SIZE
    };
    let r = p < b && p / PAGE_SIZE < hi;
    assert(pt::page_down(p) == p);
    r
}

/// No page of the range is the kernel's or that of the saved registers.
pub fn range_clear(va: u64, len: u64) -> (r: bool)
    requires
        va + len <= VA_END,
    ensures
        r == clear_range(va, len),
{
    let lo: u64 = va / PAGE_SIZE;
    let hi: u64 = (va + len + (PAGE_SIZE - 1)) / PAGE_SIZE;
    proof {
        lemma_span(va, len);
        assert(pt::page_down(va) / PAGE_SIZE == lo);
        assert(lo + pt::span(va, len) == hi || lo >= hi);
    }
    if lo >= hi {
        return true;
    }
    let ram = meets(lo, hi, frame::RAM_BASE, frame::MEMORY_END);
    let mmio = meets(lo, hi, kernel::MMIO_START, kernel::MMIO_END);
    let plic = meets(lo, hi, kernel::PLIC_START, kernel::PLIC_END);
    let tf = meets(lo, hi, TRAPFRAME_VA, TRAPFRAME_VA + PAGE_SIZE);
    let r = !ram && !mmio && !plic && !tf;
    proof {
        if !r {
            let u = choose|u: u64|
                u < VA_END && u % PAGE_SIZE == 0 && lo <= u / PAGE_SIZE < hi && (if ram {
                    frame::RAM_BASE <= u < frame::MEMORY_END
                } else if mmio {
                    kernel::MMIO_START <= u < kernel::MMIO_END
                } else if plic {
                    kernel::PLIC_START <= u < kernel::PLIC_END
                } else {
                    TRAPFRAME_VA <= u < TRAPFRAME_VA + PAGE_SIZE
                }) && #[trigger] pt::page_down(u) == u;
            lemma_not_clear(u);
        } else {
            assert forall|u: u64|
                u < VA_END && space::in_pages(pt::page_down(va), pt::span(va, len), u) implies #[trigger] clear_page(
                u,
            ) by {
                assert(lo <= u / PAGE_SIZE < hi);
                let d = pt::page_down(u);
                assert(!(frame::RAM_BASE <= d < frame::MEMORY_END));
                assert(!(kernel::MMIO_START <= d < kernel::MMIO_END));
                assert(!(kernel::PLIC_START <= d < kernel::PLIC_END));
                assert(!(TRAPFRAME_VA <= d < TRAPFRAME_VA + PAGE_SIZE));
            }
        }
    }
    r
}

/// Whether every segment can be loaded.
pub fn image_ok(info: &ElfInfo, len: usize) -> (r: bool)
    ensures
        r == segs_ok(info.progs@, len as nat),
{
    let mut i: usize = 0;
    while i < info.progs.len()
        invariant
            i <= info.progs@.len(),
            forall|j: int| 0 <= j < i ==> seg_ok(#[trigger] info.progs@[j], len as nat),
        decreases info.progs@.len() - i,
    {
        let p = info.progs[i];
        let fits = (p.flags & 7 != 0 || (p.filesz == 0 && p.memsz == 0 && p.vaddr % PAGE_SIZE == 0))
            && p.filesz <= VA_END && p.memsz <= VA_END && p.vaddr <= VA_END
            && p.offset <= len as u64 && p.filesz <= len as u64 - p.offset && p.filesz <= VA_END - p.vaddr
            && p.memsz <= VA_END - p.vaddr;
        if !fits || !range_clear(p.vaddr, p.filesz) || (p.memsz > p.filesz && !range_clear(
            p.vaddr + p.filesz,
            p.memsz - p.filesz,
        )) {
            assert(!seg_ok(info.progs@[i as int], len as nat));
            return false;
        }
        i += 1;
    }
    true
}

} // verus!
