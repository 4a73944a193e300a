//! Copying address spaces: kernel mappings into a fresh root, and user pages
//! for a forked child.
use crate::mem::frame;
use crate::mem::frame::{Mem, MemV, PAGE_SIZE, RAM_BASE, WORDS};
use crate::mem::pagetable as pt;
use crate::mem::pagetable::{PTE_U, PTE_V};
use crate::mem::space;
use crate::mem::space::VA_END;
use vstd::prelude::*;

verus! {

// ---- frame conditions ----

/// A space apart from the one that grew is what it was, and stays apart.
pub proof fn lemma_other_kept(m: MemV, n: MemV, other: u64, root: u64)
    requires
        m.wf(),
        space::space_wf(m, other),
        space::apart(m, other, root),
        space::space_only(m, n, root),
    ensures
        space::space_wf(n, other),
        pt::same_leaves(m, n, other),
        forall|a: int| pt::ix(a) ==> #[trigger] pt::has1(n, other, a) == pt::has1(m, other, a),
        forall|a: int, b: int|
            pt::ix(a) && pt::ix(b) ==> #[trigger] pt::has0(n, other, a, b) == pt::has0(m, other, a, b),
        forall|va: u64| va < VA_END ==> #[trigger] space::umem(n, other, va) == space::umem(m, other, va),
        forall|t: u64| #[trigger] space::owns(n, other, t) == space::owns(m, other, t),
        forall|t: u64| space::owns(m, other, t) ==> #[trigger] n.ram[frame::fi(t)] == m.ram[frame::fi(t)],
        space::apart(n, other, root),
{
    assert forall|t: u64| #[trigger] space::owns(m, other, t) implies n.ram[frame::fi(t)]
        == m.ram[frame::fi(t)] && !n.free(t) by {
        space::lemma_owned_live(m, other, t);
    }
    space::lemma_space_kept(m, n, other);
    assert forall|t: u64| #[trigger] space::owns(n, other, t) implies !space::owns(n, root, t) by {
        assert(space::owns(m, other, t));
        space::lemma_owned_live(m, other, t);
    }
    assert forall|t: u64| space::owns(m, other, t) implies #[trigger] n.ram[frame::fi(t)]
        == m.ram[frame::fi(t)] by {
        assert(space::owns(m, other, t));
    }
}

/// Tables grown under a space none of whose user entries is new.
pub proof fn lemma_grow_wf(m: MemV, n: MemV, root: u64)
    requires
        m.wf(),
        space::space_wf(m, root),
        pt::tables_wf(n, root),
        pt::only_grows(m, n, root),
        forall|x: int, y: int, z: int| #[trigger]
            space::upage(n, root, x, y, z) ==> space::upage(m, root, x, y, z) && pt::leaf(n, root, x, y, z)
                == pt::leaf(m, root, x, y, z),
    ensures
        space::space_wf(n, root),
        forall|t: u64| #[trigger] space::owns(n, root, t) ==> space::owns(m, root, t) || m.free(t),
{
    assert forall|a: int, b: int, c: int| #[trigger] space::upage(n, root, a, b, c) implies n.live(
        space::upa(n, root, a, b, c),
    ) && !pt::is_table(n, root, space::upa(n, root, a, b, c)) && pt::perm(pt::leaf(n, root, a, b, c)) by {
        let t = space::upa(n, root, a, b, c);
        assert(space::upage(m, root, a, b, c));
        assert(n.free(t) ==> m.free(t));
        assert(pt::is_table(n, root, t) ==> pt::is_table(m, root, t) || m.free(t));
    }
    assert forall|a: int, b: int, c: int, x: int, y: int, z: int| #[trigger]
        space::upage(n, root, a, b, c) && #[trigger] space::upage(n, root, x, y, z) && (a != x || b != y
            || c != z) implies space::upa(n, root, a, b, c) != space::upa(n, root, x, y, z) by {
        assert(space::upage(m, root, a, b, c) && space::upage(m, root, x, y, z));
    }
    assert forall|t: u64| #[trigger] space::owns(n, root, t) implies space::owns(m, root, t) || m.free(t) by {
        if pt::is_table(n, root, t) {
        } else {
            let (a, b, c) = choose|a: int, b: int, c: int| #[trigger]
                space::upage(n, root, a, b, c) && space::upa(n, root, a, b, c) == t;
            assert(space::upage(m, root, a, b, c));
        }
    }
}

/// Tables grown under a space whose user entries are as before.
pub proof fn lemma_grow_space(m: MemV, n: MemV, root: u64)
    requires
        m.wf(),
        space::space_wf(m, root),
        pt::tables_wf(n, root),
        pt::only_grows(m, n, root),
        pt::tight(m, n, root),
        forall|x: int, y: int, z: int| #[trigger]
            space::upage(n, root, x, y, z) ==> space::upage(m, root, x, y, z) && pt::leaf(n, root, x, y, z)
                == pt::leaf(m, root, x, y, z),
        forall|x: int, y: int, z: int| #[trigger]
            space::upage(m, root, x, y, z) ==> space::upage(n, root, x, y, z),
    ensures
        space::space_wf(n, root),
        space::space_only(m, n, root),
{
    lemma_grow_wf(m, n, root);
    assert forall|t: u64| frame::in_ram(t) && !space::owns(m, root, t) && !m.free(t) implies #[trigger] n.ram[frame::fi(
        t,
    )] == m.ram[frame::fi(t)] by {}
    assert forall|t: u64| #![trigger n.free(t)] m.free(t) && !n.free(t) implies space::owns(n, root, t) by {
        assert(pt::is_table(n, root, t));
    }
    assert forall|t: u64| #[trigger] space::owns(m, root, t) implies space::owns(n, root, t) by {
        if pt::is_table(m, root, t) {
            assert(pt::is_table(n, root, t));
        } else {
            let (a, b, c) = choose|a: int, b: int, c: int| #[trigger]
                space::upage(m, root, a, b, c) && space::upa(m, root, a, b, c) == t;
            assert(space::upage(n, root, a, b, c));
        }
    }
}

// ---- tables on the way ----

/// Which tables exist, all but perhaps one as before.
pub open spec fn tables_but1(m: MemV, n: MemV, root: u64, a: int) -> bool {
    &&& forall|x: int| pt::ix(x) ==> #[trigger] pt::has1(n, root, x) == (pt::has1(m, root, x) || x == a)
    &&& forall|x: int, y: int|
        pt::ix(x) && pt::ix(y) ==> #[trigger] pt::has0(n, root, x, y) == pt::has0(m, root, x, y)
}

pub open spec fn tables_but0(m: MemV, n: MemV, root: u64, a: int, b: int) -> bool {
    &&& forall|x: int| pt::ix(x) ==> #[trigger] pt::has1(n, root, x) == pt::has1(m, root, x)
    &&& forall|x: int, y: int|
        pt::ix(x) && pt::ix(y) ==> #[trigger] pt::has0(n, root, x, y) == (pt::has0(m, root, x, y) || (x == a
            && y == b))
}

pub fn ensure_l1(m: &mut Mem, root: u64, a: u64, cg: usize) -> (r: Option<u64>)
    requires
        old(m)@.wf(),
        space::space_wf(old(m)@, root),
        a < WORDS,
    ensures
        final(m)@.wf(),
        space::space_wf(final(m)@, root),
        pt::only_grows(old(m)@, final(m)@, root),
        space::space_only(old(m)@, final(m)@, root),
        pt::same_leaves(old(m)@, final(m)@, root),
        r is None <==> !pt::has1(old(m)@, root, a as int) && old(m)@.fa.room(cg) == 0,
        r is None ==> final(m)@ == old(m)@,
        r matches Some(t) ==> {
            &&& pt::has1(final(m)@, root, a as int)
            &&& t == pt::l1_of(final(m)@, root, a as int)
            &&& tables_but1(old(m)@, final(m)@, root, a as int)
            &&& final(m)@.fa == old(m)@.fa.grabs(
                cg,
                if pt::has1(old(m)@, root, a as int) {
                    0
                } else {
                    1
                },
            )
        },
{
    let ghost m0 = m@;
    proof {
        reveal_with_fuel(frame::FrameV::grabs, 2);
        frame::lemma_room(m0, cg);
        pt::lemma_grows_refl(m0, root);
        space::lemma_only_refl(m0, root);
    }
    let e = pt::rd_word(m, root, a);
    if e & PTE_V == 0 {
        match frame::alloc_frame_cg(m, cg) {
            Some(t) => {
                pt::wr_word(m, root, a, pt::pte_new(t, PTE_V));
                proof {
                    pt::lemma_add_l1(m0, root, a as int, cg);
                    lemma_same_upages(m0, m@, root);
                    lemma_grow_space(m0, m@, root);
                    assert forall|x: int, y: int| pt::ix(x) && pt::ix(y) implies #[trigger] pt::has0(
                        m@,
                        root,
                        x,
                        y,
                    ) == pt::has0(m0, root, x, y) by {
                        if x == a {
                            assert(!pt::has0(m@, root, a as int, y));
                        }
                    }
                }
                Some(t)
            },
            None => None,
        }
    } else {
        Some(pt::pte_pa(e))
    }
}

proof fn lemma_same_upages(m: MemV, n: MemV, root: u64)
    requires
        pt::same_leaves(m, n, root),
    ensures
        forall|x: int, y: int, z: int| #[trigger]
            space::upage(n, root, x, y, z) ==> space::upage(m, root, x, y, z) && pt::leaf(n, root, x, y, z)
                == pt::leaf(m, root, x, y, z),
        forall|x: int, y: int, z: int| #[trigger]
            space::upage(m, root, x, y, z) ==> space::upage(n, root, x, y, z),
{
    assert forall|x: int, y: int, z: int| #[trigger] space::upage(n, root, x, y, z) implies space::upage(
        m,
        root,
        x,
        y,
        z,
    ) && pt::leaf(n, root, x, y, z) == pt::leaf(m, root, x, y, z) by {
        assert(pt::leaf(n, root, x, y, z) == pt::leaf(m, root, x, y, z));
    }
    assert forall|x: int, y: int, z: int| #[trigger] space::upage(m, root, x, y, z) implies space::upage(
        n,
        root,
        x,
        y,
        z,
    ) by {
        assert(pt::leaf(n, root, x, y, z) == pt::leaf(m, root, x, y, z));
    }
}

pub fn ensure_l0(m: &mut Mem, root: u64, a: u64, b: u64, cg: usize) -> (r: Option<u64>)
    requires
        old(m)@.wf(),
        space::space_wf(old(m)@, root),
        a < WORDS,
        b < WORDS,
        pt::has1(old(m)@, root, a as int),
    ensures
        final(m)@.wf(),
        space::space_wf(final(m)@, root),
        pt::only_grows(old(m)@, final(m)@, root),
        space::space_only(old(m)@, final(m)@, root),
        pt::same_leaves(old(m)@, final(m)@, root),
        r is None <==> !pt::has0(old(m)@, root, a as int, b as int) && old(m)@.fa.room(cg) == 0,
        r is None ==> final(m)@ == old(m)@,
        r matches Some(t) ==> {
            &&& pt::has0(final(m)@, root, a as int, b as int)
            &&& t == pt::l0_of(final(m)@, root, a as int, b as int)
            &&& tables_but0(old(m)@, final(m)@, root, a as int, b as int)
            &&& final(m)@.fa == old(m)@.fa.grabs(
                cg,
                if pt::has0(old(m)@, root, a as int, b as int) {
                    0
                } else {
                    1
                },
            )
        },
{
    let ghost m0 = m@;
    proof {
        reveal_with_fuel(frame::FrameV::grabs, 2);
        frame::lemma_room(m0, cg);
        pt::lemma_grows_refl(m0, root);
        space::lemma_only_refl(m0, root);
    }
    let l1 = pt::pte_pa(pt::rd_word(m, root, a));
    let e = pt::rd_word(m, l1, b);
    if e & PTE_V == 0 {
        match frame::alloc_frame_cg(m, cg) {
            Some(t) => {
                pt::wr_word(m, l1, b, pt::pte_new(t, PTE_V));
                proof {
                    pt::lemma_add_l0(m0, root, a as int, b as int, cg);
                    lemma_same_upages(m0, m@, root);
                    lemma_grow_space(m0, m@, root);
                }
                Some(t)
            },
            None => None,
        }
    } else {
        Some(pt::pte_pa(e))
    }
}

// ---- cloning user pages ----

/// `f` is the entry of a clone of the page entry `e` maps: a frame that was
/// free, with the same flags and the same contents.
pub open spec fn clone_of(m: MemV, n: MemV, e: u64, f: u64) -> bool {
    let q = pt::pte_pa_of(f);
    &&& f == pt::pte_new_of(q, e & 0xff)
    &&& m.free(q)
    &&& frame::in_ram(q)
    &&& n.ram[frame::fi(q)] == m.ram[frame::fi(pt::pte_pa_of(e))]
}

/// Pages to clone among the first `c` entries of table `(a, b)`.
pub open spec fn n0(m: MemV, src: u64, a: int, b: int, c: int) -> nat
    decreases c,
{
    if c <= 0 {
        0
    } else {
        n0(m, src, a, b, c - 1) + if space::ul(pt::leaf(m, src, a, b, c - 1)) {
            1nat
        } else {
            0
        }
    }
}

/// Frames that cloning below root entry `a` takes, up to entry `b` there.
pub open spec fn n1(m: MemV, src: u64, dst: u64, a: int, b: int) -> nat
    decreases b,
{
    if b <= 0 {
        0
    } else {
        n1(m, src, dst, a, b - 1) + if pt::has0(m, src, a, b - 1) {
            n0(m, src, a, b - 1, WORDS as int) + if pt::has0(m, dst, a, b - 1) {
                0nat
            } else {
                1
            }
        } else {
            0
        }
    }
}

/// Frames that cloning takes, up to root entry `a`: the tables missing in
/// `dst` and the pages of `src`.
pub open spec fn n2(m: MemV, src: u64, dst: u64, a: int) -> nat
    decreases a,
{
    if a <= 0 {
        0
    } else {
        n2(m, src, dst, a - 1) + if pt::has1(m, src, a - 1) {
            n1(m, src, dst, a - 1, WORDS as int) + if pt::has1(m, dst, a - 1) {
                0nat
            } else {
                1
            }
        } else {
            0
        }
    }
}

/// `dst`'s entries after cloning: those of `src`'s user pages, in the part
/// `done` selects, are clones; the others are as before.
pub open spec fn cloned(m: MemV, n: MemV, src: u64, dst: u64, done: spec_fn(int, int, int) -> bool) -> bool {
    forall|x: int, y: int, z: int|
        pt::ix(x) && pt::ix(y) && pt::ix(z) ==> {
            let e = pt::leaf(m, src, x, y, z);
            let f = #[trigger] pt::leaf(n, dst, x, y, z);
            if done(x, y, z) && space::ul(e) {
                clone_of(m, n, e, f)
            } else {
                f == pt::leaf(m, dst, x, y, z)
            }
        }
}

/// No user page below the root entry `a`, or none at all.
pub open spec fn bare_at(m: MemV, root: u64, a: int) -> bool {
    forall|y: int, z: int| !(#[trigger] space::upage(m, root, a, y, z))
}

pub open spec fn bare(m: MemV, root: u64) -> bool {
    forall|x: int, y: int, z: int| !(#[trigger] space::upage(m, root, x, y, z))
}

/// State both spaces are in throughout.
pub open spec fn pair_wf(m: MemV, src: u64, dst: u64) -> bool {
    &&& m.wf()
    &&& space::space_wf(m, src)
    &&& space::space_wf(m, dst)
    &&& space::apart(m, src, dst)
}

proof fn lemma_flag_low(e: u64)
    ensures
        pt::valid(e & 0xff) == pt::valid(e),
        pt::user(e & 0xff) == pt::user(e),
        pt::perm(e & 0xff) == pt::perm(e),
{
    assert((e & 0xff) & 1 == e & 1 && (e & 0xff) & 16 == e & 16 && (e & 0xff) & 14 == e & 14)
        by (bit_vector);
}

/// One user page cloned into `dst` at the same place.
#[verifier::spinoff_prover]
#[verifier::rlimit(60)]
proof fn lemma_clone_page(m1: MemV, src: u64, dst: u64, a: int, b: int, c: int, cg: usize)
    requires
        pair_wf(m1, src, dst),
        pt::ix(a),
        pt::ix(b),
        pt::ix(c),
        pt::has0(m1, dst, a, b),
        space::ul(pt::leaf(m1, src, a, b, c)),
        !space::upage(m1, dst, a, b, c),
        m1.fa.can_alloc(cg),
    ensures
        ({
            let e = pt::leaf(m1, src, a, b, c);
            let q = m1.fa.next_frame();
            let m2 = m1.grab(cg);
            let m3 = MemV {
                ram: m2.ram.update(frame::fi(q), m2.ram[frame::fi(pt::pte_pa_of(e))]),
                ..m2
            };
            let m4 = m3.store(pt::l0_of(m1, dst, a, b), c, pt::pte_new_of(q, e & 0xff));
            &&& frame::in_ram(pt::pte_pa_of(e))
            &&& frame::in_ram(q)
            &&& frame::in_ram(pt::l0_of(m1, dst, a, b))
            &&& m2.ram[frame::fi(pt::pte_pa_of(e))] == m1.ram[frame::fi(pt::pte_pa_of(e))]
            &&& m2.ram.len() == m1.ram.len()
            &&& m3.wf()
            &&& pair_wf(m4, src, dst)
            &&& pt::only_grows(m1, m4, dst)
            &&& space::space_only(m1, m4, dst)
            &&& pt::same_tables(m1, m4, dst)
            &&& pt::same_tables(m1, m4, src)
            &&& pt::same_leaves(m1, m4, src)
            &&& pt::leaves_but(m1, m4, dst, a, b, c, pt::pte_new_of(q, e & 0xff))
            &&& clone_of(m1, m4, e, pt::pte_new_of(q, e & 0xff))
        }),
{
    let e = pt::leaf(m1, src, a, b, c);
    let s = pt::pte_pa_of(e);
    let q = m1.fa.next_frame();
    let m2 = m1.grab(cg);
    let t = pt::l0_of(m1, dst, a, b);
    let f = pt::pte_new_of(q, e & 0xff);
    let m3 = MemV { ram: m2.ram.update(frame::fi(q), m2.ram[frame::fi(s)]), ..m2 };
    let m4 = m3.store(t, c, f);
    frame::law_alloc(m1, cg);
    lemma_flag_low(e);
    pt::lemma_pte_bits(q, e & 0xff);
    assert(space::upage(m1, src, a, b, c));
    assert(space::owns(m1, src, s));
    assert(pt::is_table(m1, dst, t));
    assert(space::owns(m1, dst, t));
    assert(m1.live(t) && m1.live(s));
    pt::lemma_fi_inj(s, q);
    pt::lemma_fi_inj(t, q);
    pt::lemma_fi_inj(t, s);
    assert(m3.wf()) by {
        assert forall|i: int| 0 <= i < m3.fa.recycled.len() implies m3.ram[frame::fi(
            #[trigger] m3.fa.recycled[i],
        )] == frame::zero_frame() by {
            assert(m2.fa.recycled.contains(m3.fa.recycled[i]));
            assert(m2.free(m3.fa.recycled[i]));
            assert(frame::in_ram(m3.fa.recycled[i]));
            pt::lemma_fi_inj(m3.fa.recycled[i], q);
        }
    }
    // everything but the fresh frame is as it was
    assert forall|p: u64| frame::in_ram(p) && p != q implies #[trigger] m3.ram[frame::fi(p)]
        == m1.ram[frame::fi(p)] by {
        pt::lemma_fi_inj(p, q);
    }
    assert forall|p: u64| #[trigger] space::owns(m1, dst, p) implies m3.ram[frame::fi(p)]
        == m1.ram[frame::fi(p)] && !m3.free(p) by {
        space::lemma_owned_live(m1, dst, p);
    }
    space::lemma_space_kept(m1, m3, dst);
    assert(pt::only_grows(m1, m3, dst)) by {
        assert forall|p: u64| #[trigger] pt::is_table(m3, dst, p) implies pt::is_table(m1, dst, p)
            || m1.free(p) by {}
        assert forall|p: u64| frame::in_ram(p) && !pt::is_table(m1, dst, p) && !m1.free(p) implies #[trigger] m3.ram[frame::fi(
            p,
        )] == m1.ram[frame::fi(p)] by {
            assert(p != q);
        }
    }
    assert(pt::l0_of(m3, dst, a, b) == t && pt::has0(m3, dst, a, b)) by {
        lemma_l0_kept(m1, m3, dst, a, b);
    }
    pt::lemma_set_leaf(m3, dst, a, b, c, f);
    pt::lemma_grows_trans(m1, m3, m4, dst);
    assert(!space::owns(m1, dst, q));
    assert forall|x: int, y: int, z: int| #[trigger] space::upage(m4, dst, x, y, z) implies (if x == a && y
        == b && z == c {
        space::upa(m4, dst, x, y, z) == q
    } else {
        space::upage(m1, dst, x, y, z) && space::upa(m4, dst, x, y, z) == space::upa(m1, dst, x, y, z)
    }) by {
        assert(pt::leaf(m4, dst, x, y, z) == if x == a && y == b && z == c {
            f
        } else {
            pt::leaf(m3, dst, x, y, z)
        });
        assert(pt::leaf(m3, dst, x, y, z) == pt::leaf(m1, dst, x, y, z));
    }
    assert forall|p: u64| (m1.live(p) || p == q) && !pt::is_table(m1, dst, p) implies !(
    #[trigger] pt::is_table(m4, dst, p)) by {
        assert(pt::is_table(m3, dst, p) == pt::is_table(m1, dst, p));
        assert(pt::is_table(m4, dst, p) ==> pt::is_table(m3, dst, p) || m3.free(p));
        if p == q {
            assert(!space::owns(m1, dst, q));
        }
    }
    assert(space::upages_wf(m4, dst)) by {
        assert forall|x: int, y: int, z: int| #[trigger] space::upage(m4, dst, x, y, z) implies m4.live(
            space::upa(m4, dst, x, y, z),
        ) && !pt::is_table(m4, dst, space::upa(m4, dst, x, y, z)) by {
            let p = space::upa(m4, dst, x, y, z);
            if !(x == a && y == b && z == c) {
                assert(space::upage(m1, dst, x, y, z));
                assert(space::owns(m1, dst, p));
                space::lemma_owned_live(m1, dst, p);
            }
            assert(m4.free(p) ==> m3.free(p));
            assert(pt::leaf(m4, dst, x, y, z) == if x == a && y == b && z == c {
                f
            } else {
                pt::leaf(m3, dst, x, y, z)
            });
            assert(pt::leaf(m3, dst, x, y, z) == pt::leaf(m1, dst, x, y, z));
        }
        assert forall|x: int, y: int, z: int, x2: int, y2: int, z2: int| #[trigger]
            space::upage(m4, dst, x, y, z) && #[trigger] space::upage(m4, dst, x2, y2, z2) && (x != x2 || y
                != y2 || z != z2) implies space::upa(m4, dst, x, y, z) != space::upa(m4, dst, x2, y2, z2) by {
            if !(x == a && y == b && z == c) {
                assert(space::upage(m1, dst, x, y, z));
                assert(space::owns(m1, dst, space::upa(m1, dst, x, y, z)));
            }
            if !(x2 == a && y2 == b && z2 == c) {
                assert(space::upage(m1, dst, x2, y2, z2));
                assert(space::owns(m1, dst, space::upa(m1, dst, x2, y2, z2)));
            }
        }
    }
    assert(space::space_only(m1, m4, dst)) by {
        assert forall|p: u64| frame::in_ram(p) && !space::owns(m1, dst, p) && !m1.free(p) implies #[trigger] m4.ram[frame::fi(
            p,
        )] == m1.ram[frame::fi(p)] by {
            assert(!pt::is_table(m1, dst, p));
        }
        assert forall|p: u64| #[trigger] space::owns(m4, dst, p) implies space::owns(m1, dst, p)
            || m1.free(p) by {
            if !pt::is_table(m4, dst, p) {
                let (x, y, z) = choose|x: int, y: int, z: int| #[trigger]
                    space::upage(m4, dst, x, y, z) && space::upa(m4, dst, x, y, z) == p;
                if !(x == a && y == b && z == c) {
                    assert(space::upage(m1, dst, x, y, z));
                }
            }
        }
        assert(space::upage(m4, dst, a, b, c) && space::upa(m4, dst, a, b, c) == q) by {
            assert(pt::leaf(m4, dst, a, b, c) == f);
        }
        assert forall|p: u64| #![trigger m4.free(p)] m1.free(p) && !m4.free(p) implies space::owns(
            m4,
            dst,
            p,
        ) by {
            assert(m4.fa == m2.fa);
            assert(m4.free(p) == m2.free(p));
            assert(p == q);
        }
        assert forall|p: u64| #[trigger] space::owns(m1, dst, p) implies space::owns(m4, dst, p) by {
            if pt::is_table(m1, dst, p) {
                assert(pt::is_table(m3, dst, p));
                assert(pt::is_table(m4, dst, p));
            } else {
                let (x, y, z) = choose|x: int, y: int, z: int| #[trigger]
                    space::upage(m1, dst, x, y, z) && space::upa(m1, dst, x, y, z) == p;
                assert(!(x == a && y == b && z == c));
                assert(pt::leaf(m4, dst, x, y, z) == pt::leaf(m3, dst, x, y, z));
                assert(pt::leaf(m3, dst, x, y, z) == pt::leaf(m1, dst, x, y, z));
                assert(space::upage(m4, dst, x, y, z));
            }
        }
    }
    lemma_other_kept(m1, m4, src, dst);
    assert(pt::leaves_but(m1, m4, dst, a, b, c, f)) by {
        assert forall|x: int, y: int, z: int| pt::ix(x) && pt::ix(y) && pt::ix(z) implies #[trigger] pt::leaf(
            m4,
            dst,
            x,
            y,
            z,
        ) == if x == a && y == b && z == c {
            f
        } else {
            pt::leaf(m1, dst, x, y, z)
        } by {
            assert(pt::leaf(m3, dst, x, y, z) == pt::leaf(m1, dst, x, y, z));
        }
    }
    assert(pt::same_tables(m1, m4, dst)) by {
        assert forall|x: int, y: int| pt::ix(x) && pt::ix(y) implies #[trigger] pt::has0(m4, dst, x, y)
            == pt::has0(m1, dst, x, y) by {
            assert(pt::has0(m3, dst, x, y) == pt::has0(m1, dst, x, y));
        }
        assert forall|x: int| pt::ix(x) implies #[trigger] pt::has1(m4, dst, x) == pt::has1(m1, dst, x) by {
            assert(pt::has1(m3, dst, x) == pt::has1(m1, dst, x));
        }
    }
    assert(m4.ram[frame::fi(q)] == m3.ram[frame::fi(q)]);
}

proof fn lemma_l0_kept(m: MemV, n: MemV, root: u64, a: int, b: int)
    requires
        m.wf(),
        space::space_wf(m, root),
        pt::ix(a),
        pt::ix(b),
        pt::has0(m, root, a, b),
        forall|t: u64| #[trigger] space::owns(m, root, t) ==> n.ram[frame::fi(t)] == m.ram[frame::fi(t)],
    ensures
        pt::has0(n, root, a, b),
        pt::l0_of(n, root, a, b) == pt::l0_of(m, root, a, b),
{
    assert(space::owns(m, root, root));
    assert(pt::has1(m, root, a));
    assert(pt::is_table(m, root, pt::l1_of(m, root, a)));
    assert(space::owns(m, root, pt::l1_of(m, root, a)));
}

proof fn lemma_n0_kept(m: MemV, n: MemV, src: u64, a: int, b: int, c: int)
    requires
        pt::same_leaves(m, n, src),
        pt::ix(a),
        pt::ix(b),
        0 <= c <= WORDS,
    ensures
        n0(n, src, a, b, c) == n0(m, src, a, b, c),
    decreases c,
{
    if c > 0 {
        lemma_n0_kept(m, n, src, a, b, c - 1);
        assert(pt::leaf(n, src, a, b, c - 1) == pt::leaf(m, src, a, b, c - 1));
    }
}

proof fn lemma_n0_mono(m: MemV, src: u64, a: int, b: int, c: int, d: int)
    requires
        c <= d,
    ensures
        n0(m, src, a, b, c) <= n0(m, src, a, b, d),
    decreases d - c,
{
    if c < d {
        lemma_n0_mono(m, src, a, b, c, d - 1);
    }
}

/// A clone stays one while later steps only grow the destination's tables.
proof fn lemma_clone_lasts(m: MemV, k: MemV, n: MemV, dst: u64, e: u64, f: u64)
    requires
        clone_of(m, k, e, f),
        pt::only_grows(k, n, dst),
        !pt::is_table(k, dst, pt::pte_pa_of(f)),
        !k.free(pt::pte_pa_of(f)),
    ensures
        clone_of(m, n, e, f),
{
}

/// Steps that leave the destination's clones alone leave them clones.
proof fn lemma_cloned_lasts(
    m: MemV,
    k: MemV,
    n: MemV,
    src: u64,
    dst: u64,
    done: spec_fn(int, int, int) -> bool,
)
    requires
        cloned(m, k, src, dst, done),
        space::space_wf(k, dst),
        pt::only_grows(k, n, dst),
        pt::same_leaves(k, n, dst),
        m.wf(),
    ensures
        cloned(m, n, src, dst, done),
{
    assert forall|x: int, y: int, z: int| pt::ix(x) && pt::ix(y) && pt::ix(z) implies ({
        let e = pt::leaf(m, src, x, y, z);
        let f = #[trigger] pt::leaf(n, dst, x, y, z);
        if done(x, y, z) && space::ul(e) {
            clone_of(m, n, e, f)
        } else {
            f == pt::leaf(m, dst, x, y, z)
        }
    }) by {
        let e = pt::leaf(m, src, x, y, z);
        let f = pt::leaf(k, dst, x, y, z);
        assert(pt::leaf(n, dst, x, y, z) == f);
        if done(x, y, z) && space::ul(e) {
            lemma_clone_ul(m, k, e, f);
            assert(space::upage(k, dst, x, y, z));
            lemma_clone_lasts(m, k, n, dst, e, f);
        }
    }
}

proof fn lemma_clone_ul(m: MemV, k: MemV, e: u64, f: u64)
    requires
        clone_of(m, k, e, f),
        space::ul(e),
    ensures
        space::ul(f),
        pt::owned_leaf(e) == pt::owned_leaf(f),
{
    lemma_flag_low(e);
    pt::lemma_pte_bits(pt::pte_pa_of(f), e & 0xff);
}

/// A clone has the flags of what it was made of.
pub proof fn lemma_clone_flags(m: MemV, k: MemV, e: u64, f: u64)
    requires
        clone_of(m, k, e, f),
        space::ul(e),
    ensures
        pt::owned_leaf(e) == pt::owned_leaf(f),
        f & 0xff == e & 0xff,
{
    lemma_clone_ul(m, k, e, f);
    let q = pt::pte_pa_of(f) >> 12;
    assert(((q << 10) | ((e & 0xff) & 0x3ff)) & 0xff == e & 0xff) by (bit_vector);
}

/// Clones the user pages of table `(a, b)`; both spaces have that table.
#[verifier::spinoff_prover]
#[verifier::rlimit(60)]
fn clone_l0(m: &mut Mem, src: u64, dst: u64, a: u64, b: u64, cg: usize) -> (ok: bool)
    requires
        pair_wf(old(m)@, src, dst),
        a < WORDS,
        b < WORDS,
        pt::has0(old(m)@, src, a as int, b as int),
        pt::has0(old(m)@, dst, a as int, b as int),
        forall|z: int| !(#[trigger] space::upage(old(m)@, dst, a as int, b as int, z)),
    ensures
        pair_wf(final(m)@, src, dst),
        pt::only_grows(old(m)@, final(m)@, dst),
        space::space_only(old(m)@, final(m)@, dst),
        pt::same_tables(old(m)@, final(m)@, dst),
        pt::same_tables(old(m)@, final(m)@, src),
        pt::same_leaves(old(m)@, final(m)@, src),
        ok == (n0(old(m)@, src, a as int, b as int, WORDS as int) <= old(m)@.fa.room(cg)),
        ok ==> final(m)@.fa == old(m)@.fa.grabs(cg, n0(old(m)@, src, a as int, b as int, WORDS as int)),
        !ok ==> final(m)@.fa == old(m)@.fa.grabs(cg, old(m)@.fa.room(cg)),
        ok ==> cloned(
            old(m)@,
            final(m)@,
            src,
            dst,
            |x: int, y: int, z: int| x == a && y == b,
        ),
{
    let ghost m0 = m@;
    let ghost (ai, bi) = (a as int, b as int);
    let mut c: u64 = 0;
    proof {
        pt::lemma_grows_refl(m0, dst);
        space::lemma_only_refl(m0, dst);
    }
    while c < 512
        invariant
            m0 == old(m)@,
            c <= WORDS,
            a < WORDS,
            b < WORDS,
            ai == a,
            bi == b,
            pair_wf(m0, src, dst),
            pt::has0(m0, src, ai, bi),
            pt::has0(m0, dst, ai, bi),
            forall|z: int| !(#[trigger] space::upage(m0, dst, ai, bi, z)),
            pair_wf(m@, src, dst),
            pt::only_grows(m0, m@, dst),
            space::space_only(m0, m@, dst),
            pt::same_tables(m0, m@, dst),
            pt::same_tables(m0, m@, src),
            pt::same_leaves(m0, m@, src),
            n0(m0, src, ai, bi, c as int) <= m0.fa.room(cg),
            m@.fa == m0.fa.grabs(cg, n0(m0, src, ai, bi, c as int)),
            m@.fa.room(cg) == m0.fa.room(cg) - n0(m0, src, ai, bi, c as int),
            cloned(m0, m@, src, dst, |x: int, y: int, z: int| x == ai && y == bi && z < c),
        decreases 512 - c,
    {
        let ghost m1 = m@;
        let ghost e = pt::leaf(m0, src, ai, bi, c as int);
        proof {
            assert(pt::leaf(m1, src, ai, bi, c as int) == e);
            assert(pt::has0(m1, src, ai, bi) && pt::has0(m1, dst, ai, bi));
            assert(pt::has1(m1, src, ai) && pt::has1(m1, dst, ai));
            lemma_n0_mono(m0, src, ai, bi, c + 1, WORDS as int);
            frame::lemma_room(m1, cg);
        }
        let s1 = pt::pte_pa(pt::rd_word(m, src, a));
        let s0 = pt::pte_pa(pt::rd_word(m, s1, b));
        let e0 = pt::rd_word(m, s0, c);
        if e0 & PTE_V != 0 && e0 & PTE_U != 0 {
            let d1 = pt::pte_pa(pt::rd_word(m, dst, a));
            let d0 = pt::pte_pa(pt::rd_word(m, d1, b));
            match frame::alloc_frame_cg(m, cg) {
                Some(q) => {
                    proof {
                        assert(!space::upage(m1, dst, ai, bi, c as int)) by {
                            assert(!space::upage(m0, dst, ai, bi, c as int));
                            assert(pt::leaf(m1, dst, ai, bi, c as int) == pt::leaf(
                                m0,
                                dst,
                                ai,
                                bi,
                                c as int,
                            ));
                        }
                        lemma_clone_page(m1, src, dst, ai, bi, c as int, cg);
                    }
                    let page = m.ram[((pt::pte_pa(e0) - RAM_BASE) / PAGE_SIZE) as usize];
                    let ghost m2 = m@;
                    assert(page@ == m2.ram[frame::fi(pt::pte_pa_of(e))]);
                    m.ram.set(((q - RAM_BASE) / PAGE_SIZE) as usize, page);
                    let ghost m3 = MemV {
                        ram: m2.ram.update(frame::fi(q), m2.ram[frame::fi(pt::pte_pa_of(e))]),
                        ..m2
                    };
                    assert(m@ =~= m3);
                    pt::wr_word(m, d0, c, pt::pte_new(q, pt::pte_flags(e0)));
                    proof {
                        let f = pt::pte_new_of(q, e & 0xff);
                        pt::lemma_grows_trans(m0, m1, m@, dst);
                        space::lemma_only_trans(m0, m1, m@, dst);
                        reveal_with_fuel(frame::FrameV::grabs, 2);
                        lemma_cloned_step(m0, m1, m@, src, dst, ai, bi, c as int, f);
                    }
                },
                None => {
                    return false;
                },
            }
        } else {
            proof {
                lemma_cloned_skip(m0, m1, src, dst, ai, bi, c as int);
            }
        }
        c = c + 1;
    }
    proof {
        assert forall|x: int, y: int, z: int| pt::ix(x) && pt::ix(y) && pt::ix(z) implies ({
            let e = pt::leaf(m0, src, x, y, z);
            let f = #[trigger] pt::leaf(m@, dst, x, y, z);
            if x == ai && y == bi && space::ul(e) {
                clone_of(m0, m@, e, f)
            } else {
                f == pt::leaf(m0, dst, x, y, z)
            }
        }) by {}
    }
    true
}

proof fn lemma_cloned_skip(m0: MemV, m1: MemV, src: u64, dst: u64, a: int, b: int, c: int)
    requires
        pt::ix(a),
        pt::ix(b),
        pt::ix(c),
        !space::ul(pt::leaf(m0, src, a, b, c)),
        cloned(m0, m1, src, dst, |x: int, y: int, z: int| x == a && y == b && z < c),
    ensures
        cloned(m0, m1, src, dst, |x: int, y: int, z: int| x == a && y == b && z < c + 1),
{
}

proof fn lemma_cloned_step(m0: MemV, m1: MemV, m4: MemV, src: u64, dst: u64, a: int, b: int, c: int, f: u64)
    requires
        m0.wf(),
        pair_wf(m1, src, dst),
        pt::ix(a),
        pt::ix(b),
        pt::ix(c),
        cloned(m0, m1, src, dst, |x: int, y: int, z: int| x == a && y == b && z < c),
        pt::only_grows(m1, m4, dst),
        pt::leaves_but(m1, m4, dst, a, b, c, f),
        space::ul(pt::leaf(m0, src, a, b, c)),
        clone_of(m1, m4, pt::leaf(m1, src, a, b, c), f),
        pt::leaf(m1, src, a, b, c) == pt::leaf(m0, src, a, b, c),
        space::space_only(m0, m1, dst),
        space::space_wf(m0, src),
        space::apart(m0, src, dst),
    ensures
        cloned(m0, m4, src, dst, |x: int, y: int, z: int| x == a && y == b && z < c + 1),
{
    let e = pt::leaf(m0, src, a, b, c);
    assert(space::upage(m0, src, a, b, c));
    assert(space::owns(m0, src, pt::pte_pa_of(e)));
    space::lemma_owned_live(m0, src, pt::pte_pa_of(e));
    assert(m1.ram[frame::fi(pt::pte_pa_of(e))] == m0.ram[frame::fi(pt::pte_pa_of(e))]);
    assert(clone_of(m0, m4, e, f));
    assert forall|x: int, y: int, z: int| pt::ix(x) && pt::ix(y) && pt::ix(z) implies ({
        let e2 = pt::leaf(m0, src, x, y, z);
        let f2 = #[trigger] pt::leaf(m4, dst, x, y, z);
        if x == a && y == b && z < c + 1 && space::ul(e2) {
            clone_of(m0, m4, e2, f2)
        } else {
            f2 == pt::leaf(m0, dst, x, y, z)
        }
    }) by {
        let e2 = pt::leaf(m0, src, x, y, z);
        let f2 = pt::leaf(m1, dst, x, y, z);
        if x == a && y == b && z < c && space::ul(e2) {
            lemma_clone_ul(m0, m1, e2, f2);
            assert(space::upage(m1, dst, x, y, z));
            lemma_clone_lasts(m0, m1, m4, dst, e2, f2);
        }
    }
}

/// Two parts cloned one after the other.
proof fn lemma_cloned_compose(
    m0: MemV,
    m2: MemV,
    m3: MemV,
    src: u64,
    dst: u64,
    d1: spec_fn(int, int, int) -> bool,
    d2: spec_fn(int, int, int) -> bool,
    d3: spec_fn(int, int, int) -> bool,
)
    requires
        m0.wf(),
        cloned(m0, m2, src, dst, d1),
        cloned(m2, m3, src, dst, d2),
        forall|x: int, y: int, z: int|
            pt::ix(x) && pt::ix(y) && pt::ix(z) ==> !(#[trigger] d1(x, y, z) && d2(x, y, z)),
        forall|x: int, y: int, z: int|
            pt::ix(x) && pt::ix(y) && pt::ix(z) ==> #[trigger] d3(x, y, z) == (d1(x, y, z) || d2(x, y, z)),
        space::space_wf(m2, dst),
        pt::only_grows(m2, m3, dst),
        space::space_only(m0, m2, dst),
        space::space_wf(m0, src),
        space::apart(m0, src, dst),
        pt::same_leaves(m0, m2, src),
    ensures
        cloned(m0, m3, src, dst, d3),
{
    assert forall|x: int, y: int, z: int| pt::ix(x) && pt::ix(y) && pt::ix(z) implies ({
        let e = pt::leaf(m0, src, x, y, z);
        let f = #[trigger] pt::leaf(m3, dst, x, y, z);
        if d3(x, y, z) && space::ul(e) {
            clone_of(m0, m3, e, f)
        } else {
            f == pt::leaf(m0, dst, x, y, z)
        }
    }) by {
        let e = pt::leaf(m0, src, x, y, z);
        let f2 = pt::leaf(m2, dst, x, y, z);
        assert(pt::leaf(m2, src, x, y, z) == e);
        assert(d3(x, y, z) == (d1(x, y, z) || d2(x, y, z)));
        assert(!(d1(x, y, z) && d2(x, y, z)));
        if d1(x, y, z) && space::ul(e) {
            lemma_clone_ul(m0, m2, e, f2);
            assert(space::upage(m2, dst, x, y, z));
            lemma_clone_lasts(m0, m2, m3, dst, e, f2);
        } else if d2(x, y, z) && space::ul(e) {
            assert(space::upage(m0, src, x, y, z));
            assert(space::owns(m0, src, pt::pte_pa_of(e)));
            space::lemma_owned_live(m0, src, pt::pte_pa_of(e));
            assert(m2.ram[frame::fi(pt::pte_pa_of(e))] == m0.ram[frame::fi(pt::pte_pa_of(e))]);
        }
    }
}

proof fn lemma_n1_mono(m: MemV, src: u64, dst: u64, a: int, b: int, c: int)
    requires
        b <= c,
    ensures
        n1(m, src, dst, a, b) <= n1(m, src, dst, a, c),
    decreases c - b,
{
    if b < c {
        lemma_n1_mono(m, src, dst, a, b, c - 1);
    }
}

proof fn lemma_n2_mono(m: MemV, src: u64, dst: u64, a: int, c: int)
    requires
        a <= c,
    ensures
        n2(m, src, dst, a) <= n2(m, src, dst, c),
    decreases c - a,
{
    if a < c {
        lemma_n2_mono(m, src, dst, a, c - 1);
    }
}

/// Clones the user pages below root entry `a`; both spaces have that entry.
#[verifier::spinoff_prover]
#[verifier::rlimit(60)]
fn clone_l1(m: &mut Mem, src: u64, dst: u64, a: u64, cg: usize) -> (ok: bool)
    requires
        pair_wf(old(m)@, src, dst),
        a < WORDS,
        pt::has1(old(m)@, src, a as int),
        pt::has1(old(m)@, dst, a as int),
        bare_at(old(m)@, dst, a as int),
    ensures
        pair_wf(final(m)@, src, dst),
        pt::only_grows(old(m)@, final(m)@, dst),
        space::space_only(old(m)@, final(m)@, dst),
        pt::same_tables(old(m)@, final(m)@, src),
        pt::same_leaves(old(m)@, final(m)@, src),
        forall|x: int| pt::ix(x) ==> #[trigger] pt::has1(final(m)@, dst, x) == pt::has1(old(m)@, dst, x),
        forall|x: int, y: int|
            pt::ix(x) && pt::ix(y) && x != a ==> #[trigger] pt::has0(final(m)@, dst, x, y) == pt::has0(
                old(m)@,
                dst,
                x,
                y,
            ),
        ok == (n1(old(m)@, src, dst, a as int, WORDS as int) <= old(m)@.fa.room(cg)),
        ok ==> final(m)@.fa == old(m)@.fa.grabs(cg, n1(old(m)@, src, dst, a as int, WORDS as int)),
        !ok ==> final(m)@.fa == old(m)@.fa.grabs(cg, old(m)@.fa.room(cg)),
        ok ==> cloned(old(m)@, final(m)@, src, dst, |x: int, y: int, z: int| x == a),
{
    let ghost m0 = m@;
    let ghost ai = a as int;
    let mut b: u64 = 0;
    proof {
        pt::lemma_grows_refl(m0, dst);
        space::lemma_only_refl(m0, dst);
    }
    while b < 512
        invariant
            m0 == old(m)@,
            b <= WORDS,
            a < WORDS,
            ai == a,
            pair_wf(m0, src, dst),
            pt::has1(m0, src, ai),
            pt::has1(m0, dst, ai),
            bare_at(m0, dst, ai),
            pair_wf(m@, src, dst),
            pt::only_grows(m0, m@, dst),
            space::space_only(m0, m@, dst),
            pt::same_tables(m0, m@, src),
            pt::same_leaves(m0, m@, src),
            forall|x: int| pt::ix(x) ==> #[trigger] pt::has1(m@, dst, x) == pt::has1(m0, dst, x),
            forall|x: int, y: int|
                pt::ix(x) && pt::ix(y) && (x != ai || y >= b) ==> #[trigger] pt::has0(m@, dst, x, y)
                    == pt::has0(m0, dst, x, y),
            n1(m0, src, dst, ai, b as int) <= m0.fa.room(cg),
            m@.fa == m0.fa.grabs(cg, n1(m0, src, dst, ai, b as int)),
            m@.fa.room(cg) == m0.fa.room(cg) - n1(m0, src, dst, ai, b as int),
            cloned(m0, m@, src, dst, |x: int, y: int, z: int| x == ai && y < b),
        decreases 512 - b,
    {
        let ghost m1 = m@;
        let ghost bi = b as int;
        let ghost d1 = |x: int, y: int, z: int| x == ai && y < bi;
        let ghost d2 = |x: int, y: int, z: int| x == ai && y == bi;
        let ghost d3 = |x: int, y: int, z: int| x == ai && y < bi + 1;
        proof {
            assert(pt::has1(m1, src, ai) && pt::has1(m1, dst, ai));
            lemma_n1_mono(m0, src, dst, ai, bi + 1, WORDS as int);
            assert(pt::has0(m1, src, ai, bi) == pt::has0(m0, src, ai, bi));
            assert(pt::has0(m1, dst, ai, bi) == pt::has0(m0, dst, ai, bi));
        }
        let s1 = pt::pte_pa(pt::rd_word(m, src, a));
        let e1 = pt::rd_word(m, s1, b);
        if e1 & PTE_V != 0 {
            match ensure_l0(m, dst, a, b, cg) {
                Some(_) => {},
                None => {
                    return false;
                },
            }
            let ghost m2 = m@;
            proof {
                lemma_other_kept(m1, m2, src, dst);
                pt::lemma_grows_trans(m0, m1, m2, dst);
                space::lemma_only_trans(m0, m1, m2, dst);
                lemma_cloned_lasts(m0, m1, m2, src, dst, d1);
                lemma_leaves_trans(m0, m1, m2, src);
                lemma_n0_kept(m0, m2, src, ai, bi, WORDS as int);
                let k: nat = if pt::has0(m1, dst, ai, bi) {
                    0
                } else {
                    1
                };
                frame::lemma_room(m1, cg);
                pt::lemma_grabs_room(m1, cg, k);
                space::lemma_grabs_add(m0.fa, cg, n1(m0, src, dst, ai, bi), k);
                space::lemma_grabs_add(
                    m0.fa,
                    cg,
                    n1(m0, src, dst, ai, bi) + k,
                    n0(m0, src, ai, bi, WORDS as int),
                );
            }
            proof {
                assert forall|z: int| !(#[trigger] space::upage(m2, dst, ai, bi, z)) by {
                    assert(!space::upage(m0, dst, ai, bi, z));
                    if pt::ix(z) {
                        assert(pt::leaf(m2, dst, ai, bi, z) == pt::leaf(m0, dst, ai, bi, z));
                    }
                }
            }
            let ok = clone_l0(m, src, dst, a, b, cg);
            proof {
                pt::lemma_grows_trans(m0, m2, m@, dst);
                space::lemma_only_trans(m0, m2, m@, dst);
                lemma_leaves_trans(m0, m2, m@, src);
                lemma_tables_trans(m0, m1, m2, m@, src);
            }
            if !ok {
                proof {
                    space::lemma_grabs_add(
                        m0.fa,
                        cg,
                        (m0.fa.room(cg) - m2.fa.room(cg)) as nat,
                        m2.fa.room(cg),
                    );
                    assert forall|x: int| pt::ix(x) implies #[trigger] pt::has1(m@, dst, x) == pt::has1(
                        m0,
                        dst,
                        x,
                    ) by {
                        assert(pt::has1(m2, dst, x) == pt::has1(m1, dst, x));
                    }
                    assert forall|x: int, y: int| pt::ix(x) && pt::ix(y) && x != ai implies #[trigger] pt::has0(
                        m@,
                        dst,
                        x,
                        y,
                    ) == pt::has0(m0, dst, x, y) by {
                        assert(pt::has0(m2, dst, x, y) == pt::has0(m1, dst, x, y));
                    }
                }
                return false;
            }
            proof {
                pt::lemma_grabs_room(m2, cg, n0(m0, src, ai, bi, WORDS as int));
                lemma_cloned_compose(m0, m2, m@, src, dst, d1, d2, d3);
                assert forall|x: int| pt::ix(x) implies #[trigger] pt::has1(m@, dst, x) == pt::has1(
                    m0,
                    dst,
                    x,
                ) by {
                    assert(pt::has1(m2, dst, x) == pt::has1(m1, dst, x));
                }
                assert forall|x: int, y: int|
                    pt::ix(x) && pt::ix(y) && (x != ai || y >= bi + 1) implies #[trigger] pt::has0(
                    m@,
                    dst,
                    x,
                    y,
                ) == pt::has0(m0, dst, x, y) by {
                    assert(pt::has0(m2, dst, x, y) == pt::has0(m1, dst, x, y));
                }
            }
        } else {
            proof {
                assert(!pt::has0(m0, src, ai, bi));
                pt::lemma_flag_consts();
                assert(cloned(m0, m1, src, dst, d3)) by {
                    assert forall|x: int, y: int, z: int| pt::ix(x) && pt::ix(y) && pt::ix(z) implies ({
                        let e = pt::leaf(m0, src, x, y, z);
                        let f = #[trigger] pt::leaf(m1, dst, x, y, z);
                        if d3(x, y, z) && space::ul(e) {
                            clone_of(m0, m1, e, f)
                        } else {
                            f == pt::leaf(m0, dst, x, y, z)
                        }
                    }) by {}
                }
            }
        }
        b = b + 1;
        proof {
            assert(cloned(m0, m@, src, dst, |x: int, y: int, z: int| x == ai && y < b)) by {
                assert forall|x: int, y: int, z: int| pt::ix(x) && pt::ix(y) && pt::ix(z) implies ({
                    let e = pt::leaf(m0, src, x, y, z);
                    let f = #[trigger] pt::leaf(m@, dst, x, y, z);
                    if x == ai && y < b && space::ul(e) {
                        clone_of(m0, m@, e, f)
                    } else {
                        f == pt::leaf(m0, dst, x, y, z)
                    }
                }) by {
                    assert(d3(x, y, z) == (x == ai && y < b));
                }
            }
        }
    }
    proof {
        assert forall|x: int, y: int, z: int| pt::ix(x) && pt::ix(y) && pt::ix(z) implies ({
            let e = pt::leaf(m0, src, x, y, z);
            let f = #[trigger] pt::leaf(m@, dst, x, y, z);
            if x == ai && space::ul(e) {
                clone_of(m0, m@, e, f)
            } else {
                f == pt::leaf(m0, dst, x, y, z)
            }
        }) by {}
    }
    true
}

pub proof fn lemma_leaves_trans(m: MemV, n: MemV, k: MemV, root: u64)
    requires
        pt::same_leaves(m, n, root),
        pt::same_leaves(n, k, root),
    ensures
        pt::same_leaves(m, k, root),
{
    assert forall|x: int, y: int, z: int| pt::ix(x) && pt::ix(y) && pt::ix(z) implies #[trigger] pt::leaf(
        k,
        root,
        x,
        y,
        z,
    ) == pt::leaf(m, root, x, y, z) by {
        assert(pt::leaf(n, root, x, y, z) == pt::leaf(m, root, x, y, z));
    }
}

pub proof fn lemma_tables_trans(m0: MemV, m1: MemV, m2: MemV, m3: MemV, root: u64)
    requires
        pt::same_tables(m0, m1, root),
        pt::same_tables(m1, m2, root),
        pt::same_tables(m2, m3, root),
    ensures
        pt::same_tables(m0, m3, root),
        pt::same_tables(m0, m2, root),
{
    assert forall|x: int| pt::ix(x) implies #[trigger] pt::has1(m3, root, x) == pt::has1(m0, root, x)
        && pt::has1(m2, root, x) == pt::has1(m0, root, x) by {
        assert(pt::has1(m2, root, x) == pt::has1(m1, root, x));
        assert(pt::has1(m1, root, x) == pt::has1(m0, root, x));
    }
    assert forall|x: int, y: int| pt::ix(x) && pt::ix(y) implies #[trigger] pt::has0(m3, root, x, y)
        == pt::has0(m0, root, x, y) && pt::has0(m2, root, x, y) == pt::has0(m0, root, x, y) by {
        assert(pt::has0(m2, root, x, y) == pt::has0(m1, root, x, y));
        assert(pt::has0(m1, root, x, y) == pt::has0(m0, root, x, y));
    }
    assert forall|x: int| pt::ix(x) implies #[trigger] pt::has1(m2, root, x) == pt::has1(m0, root, x) by {
        assert(pt::has1(m1, root, x) == pt::has1(m0, root, x));
    }
    assert forall|x: int, y: int| pt::ix(x) && pt::ix(y) implies #[trigger] pt::has0(m2, root, x, y)
        == pt::has0(m0, root, x, y) by {
        assert(pt::has0(m1, root, x, y) == pt::has0(m0, root, x, y));
    }
}

/// Everything.
pub open spec fn everywhere() -> spec_fn(int, int, int) -> bool {
    |x: int, y: int, z: int| true
}

proof fn lemma_n1_kept(m: MemV, n: MemV, src: u64, dst: u64, a: int, b: int)
    requires
        pt::same_leaves(m, n, src),
        pt::same_tables(m, n, src),
        pt::ix(a),
        0 <= b <= WORDS,
        forall|y: int| pt::ix(y) ==> #[trigger] pt::has0(n, dst, a, y) == pt::has0(m, dst, a, y),
    ensures
        n1(n, src, dst, a, b) == n1(m, src, dst, a, b),
    decreases b,
{
    if b > 0 {
        lemma_n1_kept(m, n, src, dst, a, b - 1);
        lemma_n0_kept(m, n, src, a, b - 1, WORDS as int);
        assert(pt::has0(n, src, a, b - 1) == pt::has0(m, src, a, b - 1));
        assert(pt::has0(n, dst, a, b - 1) == pt::has0(m, dst, a, b - 1));
    }
}

/// Clones every user page of `src` into `dst`, frames and tables charged to
/// `cg`. False when one cannot be had; `src` is untouched either way.
#[verifier::spinoff_prover]
#[verifier::rlimit(60)]
pub fn clone_user(m: &mut Mem, src: u64, dst: u64, cg: usize) -> (ok: bool)
    requires
        pair_wf(old(m)@, src, dst),
        bare(old(m)@, dst),
    ensures
        pair_wf(final(m)@, src, dst),
        pt::only_grows(old(m)@, final(m)@, dst),
        space::space_only(old(m)@, final(m)@, dst),
        pt::same_tables(old(m)@, final(m)@, src),
        pt::same_leaves(old(m)@, final(m)@, src),
        ok == (n2(old(m)@, src, dst, WORDS as int) <= old(m)@.fa.room(cg)),
        ok ==> final(m)@.fa == old(m)@.fa.grabs(cg, n2(old(m)@, src, dst, WORDS as int)),
        !ok ==> final(m)@.fa == old(m)@.fa.grabs(cg, old(m)@.fa.room(cg)),
        ok ==> cloned(old(m)@, final(m)@, src, dst, everywhere()),
{
    let ghost m0 = m@;
    let mut a: u64 = 0;
    proof {
        pt::lemma_grows_refl(m0, dst);
        space::lemma_only_refl(m0, dst);
    }
    while a < 512
        invariant
            m0 == old(m)@,
            a <= WORDS,
            pair_wf(m0, src, dst),
            bare(m0, dst),
            pair_wf(m@, src, dst),
            pt::only_grows(m0, m@, dst),
            space::space_only(m0, m@, dst),
            pt::same_tables(m0, m@, src),
            pt::same_leaves(m0, m@, src),
            forall|x: int| pt::ix(x) && x >= a ==> #[trigger] pt::has1(m@, dst, x) == pt::has1(m0, dst, x),
            forall|x: int, y: int|
                pt::ix(x) && pt::ix(y) && x >= a ==> #[trigger] pt::has0(m@, dst, x, y) == pt::has0(
                    m0,
                    dst,
                    x,
                    y,
                ),
            n2(m0, src, dst, a as int) <= m0.fa.room(cg),
            m@.fa == m0.fa.grabs(cg, n2(m0, src, dst, a as int)),
            m@.fa.room(cg) == m0.fa.room(cg) - n2(m0, src, dst, a as int),
            cloned(m0, m@, src, dst, |x: int, y: int, z: int| x < a),
        decreases 512 - a,
    {
        let ghost m1 = m@;
        let ghost ai = a as int;
        let ghost d1 = |x: int, y: int, z: int| x < ai;
        let ghost d2 = |x: int, y: int, z: int| x == ai;
        let ghost d3 = |x: int, y: int, z: int| x < ai + 1;
        proof {
            lemma_n2_mono(m0, src, dst, ai + 1, WORDS as int);
            assert(pt::has1(m1, src, ai) == pt::has1(m0, src, ai));
            assert(pt::has1(m1, dst, ai) == pt::has1(m0, dst, ai));
        }
        let e2 = pt::rd_word(m, src, a);
        if e2 & PTE_V != 0 {
            match ensure_l1(m, dst, a, cg) {
                Some(_) => {},
                None => {
                    return false;
                },
            }
            let ghost m2 = m@;
            proof {
                lemma_other_kept(m1, m2, src, dst);
                pt::lemma_grows_trans(m0, m1, m2, dst);
                space::lemma_only_trans(m0, m1, m2, dst);
                lemma_cloned_lasts(m0, m1, m2, src, dst, d1);
                lemma_leaves_trans(m0, m1, m2, src);
                lemma_tables_trans(m0, m1, m2, m2, src);
                assert forall|y: int| pt::ix(y) implies #[trigger] pt::has0(m2, dst, ai, y) == pt::has0(
                    m0,
                    dst,
                    ai,
                    y,
                ) by {
                    assert(pt::has0(m2, dst, ai, y) == pt::has0(m1, dst, ai, y));
                }
                lemma_n1_kept(m0, m2, src, dst, ai, WORDS as int);
                let k: nat = if pt::has1(m1, dst, ai) {
                    0
                } else {
                    1
                };
                frame::lemma_room(m1, cg);
                pt::lemma_grabs_room(m1, cg, k);
                space::lemma_grabs_add(m0.fa, cg, n2(m0, src, dst, ai), k);
                space::lemma_grabs_add(
                    m0.fa,
                    cg,
                    n2(m0, src, dst, ai) + k,
                    n1(m0, src, dst, ai, WORDS as int),
                );
            }
            proof {
                assert forall|y: int, z: int| !(#[trigger] space::upage(m2, dst, ai, y, z)) by {
                    assert(!space::upage(m0, dst, ai, y, z));
                    if pt::ix(y) && pt::ix(z) {
                        assert(pt::leaf(m2, dst, ai, y, z) == pt::leaf(m0, dst, ai, y, z));
                    }
                }
            }
            let ok = clone_l1(m, src, dst, a, cg);
            proof {
                pt::lemma_grows_trans(m0, m2, m@, dst);
                space::lemma_only_trans(m0, m2, m@, dst);
                lemma_leaves_trans(m0, m2, m@, src);
                lemma_tables_trans(m0, m1, m2, m@, src);
            }
            if !ok {
                proof {
                    space::lemma_grabs_add(
                        m0.fa,
                        cg,
                        (m0.fa.room(cg) - m2.fa.room(cg)) as nat,
                        m2.fa.room(cg),
                    );
                }
                return false;
            }
            proof {
                pt::lemma_grabs_room(m2, cg, n1(m0, src, dst, ai, WORDS as int));
                lemma_cloned_compose(m0, m2, m@, src, dst, d1, d2, d3);
                assert forall|x: int| pt::ix(x) && x >= ai + 1 implies #[trigger] pt::has1(m@, dst, x)
                    == pt::has1(m0, dst, x) by {
                    assert(pt::has1(m2, dst, x) == pt::has1(m1, dst, x));
                }
                assert forall|x: int, y: int| pt::ix(x) && pt::ix(y) && x >= ai + 1 implies #[trigger] pt::has0(
                    m@,
                    dst,
                    x,
                    y,
                ) == pt::has0(m0, dst, x, y) by {
                    assert(pt::has0(m2, dst, x, y) == pt::has0(m1, dst, x, y));
                }
            }
        } else {
            proof {
                assert(!pt::has1(m0, src, ai));
                pt::lemma_flag_consts();
                assert(cloned(m0, m1, src, dst, d3)) by {
                    assert forall|x: int, y: int, z: int| pt::ix(x) && pt::ix(y) && pt::ix(z) implies ({
                        let e = pt::leaf(m0, src, x, y, z);
                        let f = #[trigger] pt::leaf(m1, dst, x, y, z);
                        if d3(x, y, z) && space::ul(e) {
                            clone_of(m0, m1, e, f)
                        } else {
                            f == pt::leaf(m0, dst, x, y, z)
                        }
                    }) by {
                        assert(d1(x, y, z) == (x < ai));
                    }
                }
            }
        }
        a = a + 1;
        proof {
            assert forall|x: int, y: int, z: int| pt::ix(x) && pt::ix(y) && pt::ix(z) implies ({
                let e = pt::leaf(m0, src, x, y, z);
                let f = #[trigger] pt::leaf(m@, dst, x, y, z);
                if x < a && space::ul(e) {
                    clone_of(m0, m@, e, f)
                } else {
                    f == pt::leaf(m0, dst, x, y, z)
                }
            }) by {
                assert(d3(x, y, z) == (x < a));
            }
        }
    }
    proof {
        assert forall|x: int, y: int, z: int| pt::ix(x) && pt::ix(y) && pt::ix(z) implies ({
            let e = pt::leaf(m0, src, x, y, z);
            let f = #[trigger] pt::leaf(m@, dst, x, y, z);
            if everywhere()(x, y, z) && space::ul(e) {
                clone_of(m0, m@, e, f)
            } else {
                f == pt::leaf(m0, dst, x, y, z)
            }
        }) by {}
    }
    true
}

/// The clone shows its user, byte for byte, what the source showed at the
/// time; where the source had no user page, the clone is as before.
pub proof fn law_clone_same_memory(m: MemV, n: MemV, src: u64, dst: u64, va: u64)
    requires
        pair_wf(m, src, dst),
        pair_wf(n, src, dst),
        cloned(m, n, src, dst, everywhere()),
        va < VA_END,
    ensures
        space::umem(m, src, va) is Some ==> space::umem(n, dst, va) == space::umem(m, src, va),
        !space::ul(pt::leaf_at(m, src, va)) ==> pt::leaf_at(n, dst, va) == pt::leaf_at(m, dst, va),
{
    space::lemma_indices(va);
    let (a, b, c) = (pt::vpn_of(va, 2), pt::vpn_of(va, 1), pt::vpn_of(va, 0));
    let e = pt::leaf(m, src, a, b, c);
    let f = pt::leaf(n, dst, a, b, c);
    if space::umem(m, src, va) is Some {
        assert(everywhere()(a, b, c));
        lemma_clone_ul(m, n, e, f);
        assert(space::upage(m, src, a, b, c));
        lemma_clone_bytes(m, n, e, f, va % PAGE_SIZE);
    }
}

/// A clone holds the same bytes.
proof fn lemma_clone_bytes(m: MemV, n: MemV, e: u64, f: u64, off: u64)
    requires
        clone_of(m, n, e, f),
        frame::in_ram(pt::pte_pa_of(e)),
        off < PAGE_SIZE,
    ensures
        space::byte_at(m, (pt::pte_pa_of(e) + off) as u64) == space::byte_at(
            n,
            (pt::pte_pa_of(f) + off) as u64,
        ),
{
    lemma_inside(pt::pte_pa_of(e), off);
    lemma_inside(pt::pte_pa_of(f), off);
}

/// An address inside a frame: same frame, same place.
proof fn lemma_inside(p: u64, off: u64)
    requires
        frame::in_ram(p),
        off < PAGE_SIZE,
    ensures
        frame::fi((p + off) as u64) == frame::fi(p),
        (p + off) as u64 % PAGE_SIZE == off,
        (p + off) as u64 % 8 == off % 8,
{
    assert((p + off) as u64 == p + off);
    assert(p % PAGE_SIZE == 0);
    assert((p + off) % PAGE_SIZE as int == off);
    assert((p + off) % 8 == off % 8);
}

} // verus!
