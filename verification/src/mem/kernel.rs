//! Kernel mappings and fresh user-capable address spaces.
use crate::mem::copy;
use crate::mem::frame;
use crate::mem::frame::{Mem, MemV, MEMORY_END, PAGE_SIZE, RAM_BASE, WORDS};
use crate::mem::pagetable as pt;
use crate::mem::pagetable::{PTE_R, PTE_RWX, PTE_U, PTE_V, PTE_VAD, PTE_W, PTE_X};
use crate::mem::shape;
use crate::mem::shape::Shape;
use crate::mem::space;
use crate::mem::space::VA_END;
use crate::mem::teardown;
use vstd::prelude::*;

verus! {

/// The entry maps a kernel page.
pub open spec fn kl(e: u64) -> bool {
    pt::valid(e) && !pt::user(e)
}

/// `dst`'s entries after copying: the kernel entries of `src`, in the part
/// `done` selects, and its own elsewhere.
pub open spec fn kcopied(m: MemV, n: MemV, src: u64, dst: u64, done: spec_fn(int, int, int) -> bool) -> bool {
    forall|x: int, y: int, z: int|
        pt::ix(x) && pt::ix(y) && pt::ix(z) ==> #[trigger] pt::leaf(n, dst, x, y, z) == if done(x, y, z)
            && kl(pt::leaf(m, src, x, y, z)) {
            pt::leaf(m, src, x, y, z)
        } else {
            pt::leaf(m, dst, x, y, z)
        }
}

/// Tables that copying below root entry `a` adds, up to entry `b` there.
pub open spec fn k1(m: MemV, src: u64, dst: u64, a: int, b: int) -> nat
    decreases b,
{
    if b <= 0 {
        0
    } else {
        k1(m, src, dst, a, b - 1) + if pt::has0(m, src, a, b - 1) && !pt::has0(m, dst, a, b - 1) {
            1nat
        } else {
            0
        }
    }
}

/// Tables that copying adds, up to root entry `a`.
pub open spec fn k2(m: MemV, src: u64, dst: u64, a: int) -> nat
    decreases a,
{
    if a <= 0 {
        0
    } else {
        k2(m, src, dst, a - 1) + if pt::has1(m, src, a - 1) {
            k1(m, src, dst, a - 1, WORDS as int) + if pt::has1(m, dst, a - 1) {
                0nat
            } else {
                1
            }
        } else {
            0
        }
    }
}

proof fn lemma_k1_mono(m: MemV, src: u64, dst: u64, a: int, b: int, c: int)
    requires
        b <= c,
    ensures
        k1(m, src, dst, a, b) <= k1(m, src, dst, a, c),
    decreases c - b,
{
    if b < c {
        lemma_k1_mono(m, src, dst, a, b, c - 1);
    }
}

proof fn lemma_k2_mono(m: MemV, src: u64, dst: u64, a: int, c: int)
    requires
        a <= c,
    ensures
        k2(m, src, dst, a) <= k2(m, src, dst, c),
    decreases c - a,
{
    if a < c {
        lemma_k2_mono(m, src, dst, a, c - 1);
    }
}

proof fn lemma_k1_kept(m: MemV, n: MemV, src: u64, dst: u64, a: int, b: int)
    requires
        pt::same_tables(m, n, src),
        pt::ix(a),
        0 <= b <= WORDS,
        forall|y: int| pt::ix(y) ==> #[trigger] pt::has0(n, dst, a, y) == pt::has0(m, dst, a, y),
    ensures
        k1(n, src, dst, a, b) == k1(m, src, dst, a, b),
    decreases b,
{
    if b > 0 {
        lemma_k1_kept(m, n, src, dst, a, b - 1);
        assert(pt::has0(n, src, a, b - 1) == pt::has0(m, src, a, b - 1));
        assert(pt::has0(n, dst, a, b - 1) == pt::has0(m, dst, a, b - 1));
    }
}

/// Parts copied one after the other.
proof fn lemma_kcopied_compose(
    m0: MemV,
    m2: MemV,
    m3: MemV,
    src: u64,
    dst: u64,
    d1: spec_fn(int, int, int) -> bool,
    d2: spec_fn(int, int, int) -> bool,
    d3: spec_fn(int, int, int) -> bool,
)
    requires
        kcopied(m0, m2, src, dst, d1),
        kcopied(m2, m3, src, dst, d2),
        pt::same_leaves(m0, m2, src),
        forall|x: int, y: int, z: int|
            pt::ix(x) && pt::ix(y) && pt::ix(z) ==> #[trigger] d3(x, y, z) == (d1(x, y, z) || d2(x, y, z)),
    ensures
        kcopied(m0, m3, src, dst, d3),
{
    assert forall|x: int, y: int, z: int| pt::ix(x) && pt::ix(y) && pt::ix(z) implies #[trigger] pt::leaf(
        m3,
        dst,
        x,
        y,
        z,
    ) == if d3(x, y, z) && kl(pt::leaf(m0, src, x, y, z)) {
        pt::leaf(m0, src, x, y, z)
    } else {
        pt::leaf(m0, dst, x, y, z)
    } by {
        assert(pt::leaf(m2, src, x, y, z) == pt::leaf(m0, src, x, y, z));
        assert(d3(x, y, z) == (d1(x, y, z) || d2(x, y, z)));
        let f2 = pt::leaf(m2, dst, x, y, z);
    }
}

proof fn lemma_bare_kept(m: MemV, n: MemV, root: u64)
    requires
        copy::bare(m, root),
        pt::same_leaves(m, n, root),
    ensures
        copy::bare(n, root),
{
    assert forall|x: int, y: int, z: int| !(#[trigger] space::upage(n, root, x, y, z)) by {
        assert(!space::upage(m, root, x, y, z));
        if pt::ix(x) && pt::ix(y) && pt::ix(z) {
            assert(pt::leaf(n, root, x, y, z) == pt::leaf(m, root, x, y, z));
        }
    }
}

/// Copies the kernel entries of table `(a, b)`; both spaces have that table.
#[verifier::spinoff_prover]
#[verifier::rlimit(60)]
fn copy_l0(m: &mut Mem, src: u64, dst: u64, a: u64, b: u64)
    requires
        copy::pair_wf(old(m)@, src, dst),
        a < WORDS,
        b < WORDS,
        pt::has0(old(m)@, src, a as int, b as int),
        pt::has0(old(m)@, dst, a as int, b as int),
        copy::bare(old(m)@, dst),
    ensures
        copy::bare(final(m)@, dst),
        copy::pair_wf(final(m)@, src, dst),
        final(m)@.fa == old(m)@.fa,
        pt::only_grows(old(m)@, final(m)@, dst),
        space::space_only(old(m)@, final(m)@, dst),
        pt::same_tables(old(m)@, final(m)@, dst),
        pt::same_tables(old(m)@, final(m)@, src),
        pt::same_leaves(old(m)@, final(m)@, src),
        kcopied(old(m)@, final(m)@, src, dst, |x: int, y: int, z: int| x == a && y == b),
{
    let ghost m0 = m@;
    let ghost (ai, bi) = (a as int, b as int);
    let mut c: u64 = 0;
    proof {
        pt::lemma_grows_refl(m0, dst);
        space::lemma_only_refl(m0, dst);
    }
    while c < 512
        invariant
            m0 == old(m)@,
            c <= WORDS,
            a < WORDS,
            b < WORDS,
            ai == a,
            bi == b,
            copy::pair_wf(m0, src, dst),
            pt::has0(m0, src, ai, bi),
            pt::has0(m0, dst, ai, bi),
            copy::pair_wf(m@, src, dst),
            copy::bare(m@, dst),
            m@.fa == m0.fa,
            pt::only_grows(m0, m@, dst),
            space::space_only(m0, m@, dst),
            pt::same_tables(m0, m@, dst),
            pt::same_tables(m0, m@, src),
            pt::same_leaves(m0, m@, src),
            kcopied(m0, m@, src, dst, |x: int, y: int, z: int| x == ai && y == bi && z < c),
        decreases 512 - c,
    {
        let ghost m1 = m@;
        let ghost e = pt::leaf(m0, src, ai, bi, c as int);
        proof {
            assert(pt::leaf(m1, src, ai, bi, c as int) == e);
            assert(pt::has0(m1, src, ai, bi) && pt::has0(m1, dst, ai, bi));
            assert(pt::has1(m1, src, ai) && pt::has1(m1, dst, ai));
        }
        let s1 = pt::pte_pa(pt::rd_word(m, src, a));
        let s0 = pt::pte_pa(pt::rd_word(m, s1, b));
        let e0 = pt::rd_word(m, s0, c);
        if e0 & PTE_V != 0 && e0 & PTE_U == 0 {
            let d1 = pt::pte_pa(pt::rd_word(m, dst, a));
            let d0 = pt::pte_pa(pt::rd_word(m, d1, b));
            pt::wr_word(m, d0, c, e0);
            proof {
                pt::lemma_set_leaf(m1, dst, ai, bi, c as int, e);
                assert forall|x: int, y: int, z: int| !(#[trigger] space::upage(m@, dst, x, y, z)) by {
                    assert(!space::upage(m1, dst, x, y, z));
                    if pt::ix(x) && pt::ix(y) && pt::ix(z) {
                        assert(pt::leaf(m@, dst, x, y, z) == if x == ai && y == bi && z == c {
                            e
                        } else {
                            pt::leaf(m1, dst, x, y, z)
                        });
                    }
                }
                copy::lemma_grow_space(m1, m@, dst);
                copy::lemma_other_kept(m1, m@, src, dst);
                pt::lemma_grows_trans(m0, m1, m@, dst);
                space::lemma_only_trans(m0, m1, m@, dst);
                copy::lemma_leaves_trans(m0, m1, m@, src);
                copy::lemma_tables_trans(m0, m1, m@, m@, src);
                copy::lemma_tables_trans(m0, m1, m@, m@, dst);
            }
        }
        c = c + 1;
        proof {
            assert forall|x: int, y: int, z: int| pt::ix(x) && pt::ix(y) && pt::ix(z) implies #[trigger] pt::leaf(
                m@,
                dst,
                x,
                y,
                z,
            ) == if x == ai && y == bi && z < c && kl(pt::leaf(m0, src, x, y, z)) {
                pt::leaf(m0, src, x, y, z)
            } else {
                pt::leaf(m0, dst, x, y, z)
            } by {
                let f1 = pt::leaf(m1, dst, x, y, z);
            }
        }
    }
    proof {
        assert forall|x: int, y: int, z: int| pt::ix(x) && pt::ix(y) && pt::ix(z) implies #[trigger] pt::leaf(
            m@,
            dst,
            x,
            y,
            z,
        ) == if x == ai && y == bi && kl(pt::leaf(m0, src, x, y, z)) {
            pt::leaf(m0, src, x, y, z)
        } else {
            pt::leaf(m0, dst, x, y, z)
        } by {}
    }
}

proof fn lemma_kcopied_lasts(
    m: MemV,
    k: MemV,
    n: MemV,
    src: u64,
    dst: u64,
    done: spec_fn(int, int, int) -> bool,
)
    requires
        kcopied(m, k, src, dst, done),
        pt::same_leaves(k, n, dst),
    ensures
        kcopied(m, n, src, dst, done),
{
    assert forall|x: int, y: int, z: int| pt::ix(x) && pt::ix(y) && pt::ix(z) implies #[trigger] pt::leaf(
        n,
        dst,
        x,
        y,
        z,
    ) == if done(x, y, z) && kl(pt::leaf(m, src, x, y, z)) {
        pt::leaf(m, src, x, y, z)
    } else {
        pt::leaf(m, dst, x, y, z)
    } by {
        let f = pt::leaf(k, dst, x, y, z);
    }
}

#[verifier::spinoff_prover]
#[verifier::rlimit(60)]
fn copy_l1(m: &mut Mem, src: u64, dst: u64, a: u64, cg: usize) -> (ok: bool)
    requires
        copy::pair_wf(old(m)@, src, dst),
        a < WORDS,
        pt::has1(old(m)@, src, a as int),
        pt::has1(old(m)@, dst, a as int),
        copy::bare(old(m)@, dst),
    ensures
        copy::bare(final(m)@, dst),
        copy::pair_wf(final(m)@, src, dst),
        pt::only_grows(old(m)@, final(m)@, dst),
        space::space_only(old(m)@, final(m)@, dst),
        pt::same_tables(old(m)@, final(m)@, src),
        pt::same_leaves(old(m)@, final(m)@, src),
        forall|x: int| pt::ix(x) ==> #[trigger] pt::has1(final(m)@, dst, x) == pt::has1(old(m)@, dst, x),
        forall|x: int, y: int|
            pt::ix(x) && pt::ix(y) && x != a ==> #[trigger] pt::has0(final(m)@, dst, x, y) == pt::has0(
                old(m)@,
                dst,
                x,
                y,
            ),
        ok == (k1(old(m)@, src, dst, a as int, WORDS as int) <= old(m)@.fa.room(cg)),
        ok ==> final(m)@.fa == old(m)@.fa.grabs(cg, k1(old(m)@, src, dst, a as int, WORDS as int)),
        !ok ==> final(m)@.fa == old(m)@.fa.grabs(cg, old(m)@.fa.room(cg)),
        ok ==> kcopied(old(m)@, final(m)@, src, dst, |x: int, y: int, z: int| x == a),
        ok ==> forall|y: int|
            pt::ix(y) ==> #[trigger] pt::has0(final(m)@, dst, a as int, y) == (pt::has0(
                old(m)@,
                dst,
                a as int,
                y,
            ) || pt::has0(old(m)@, src, a as int, y)),
{
    let ghost m0 = m@;
    let ghost ai = a as int;
    let mut b: u64 = 0;
    proof {
        pt::lemma_grows_refl(m0, dst);
        space::lemma_only_refl(m0, dst);
    }
    while b < 512
        invariant
            m0 == old(m)@,
            b <= WORDS,
            a < WORDS,
            ai == a,
            copy::pair_wf(m0, src, dst),
            pt::has1(m0, src, ai),
            pt::has1(m0, dst, ai),
            copy::pair_wf(m@, src, dst),
            copy::bare(m@, dst),
            pt::only_grows(m0, m@, dst),
            space::space_only(m0, m@, dst),
            pt::same_tables(m0, m@, src),
            pt::same_leaves(m0, m@, src),
            forall|x: int| pt::ix(x) ==> #[trigger] pt::has1(m@, dst, x) == pt::has1(m0, dst, x),
            forall|x: int, y: int|
                pt::ix(x) && pt::ix(y) && (x != ai || y >= b) ==> #[trigger] pt::has0(m@, dst, x, y)
                    == pt::has0(m0, dst, x, y),
            forall|y: int|
                pt::ix(y) && y < b ==> #[trigger] pt::has0(m@, dst, ai, y) == (pt::has0(m0, dst, ai, y) || pt::has0(
                    m0,
                    src,
                    ai,
                    y,
                )),
            k1(m0, src, dst, ai, b as int) <= m0.fa.room(cg),
            m@.fa == m0.fa.grabs(cg, k1(m0, src, dst, ai, b as int)),
            m@.fa.room(cg) == m0.fa.room(cg) - k1(m0, src, dst, ai, b as int),
            kcopied(m0, m@, src, dst, |x: int, y: int, z: int| x == ai && y < b),
        decreases 512 - b,
    {
        let ghost m1 = m@;
        let ghost bi = b as int;
        let ghost d1 = |x: int, y: int, z: int| x == ai && y < bi;
        let ghost d2 = |x: int, y: int, z: int| x == ai && y == bi;
        let ghost d3 = |x: int, y: int, z: int| x == ai && y < bi + 1;
        proof {
            assert(pt::has1(m1, src, ai) && pt::has1(m1, dst, ai));
            lemma_k1_mono(m0, src, dst, ai, bi + 1, WORDS as int);
            assert(pt::has0(m1, src, ai, bi) == pt::has0(m0, src, ai, bi));
            assert(pt::has0(m1, dst, ai, bi) == pt::has0(m0, dst, ai, bi));
        }
        let s1 = pt::pte_pa(pt::rd_word(m, src, a));
        let e1 = pt::rd_word(m, s1, b);
        if e1 & PTE_V != 0 {
            match copy::ensure_l0(m, dst, a, b, cg) {
                Some(_) => {},
                None => {
                    return false;
                },
            }
            let ghost m2 = m@;
            proof {
                lemma_bare_kept(m1, m2, dst);
                copy::lemma_other_kept(m1, m2, src, dst);
                pt::lemma_grows_trans(m0, m1, m2, dst);
                space::lemma_only_trans(m0, m1, m2, dst);
                lemma_kcopied_lasts(m0, m1, m2, src, dst, d1);
                copy::lemma_leaves_trans(m0, m1, m2, src);
                let k: nat = if pt::has0(m1, dst, ai, bi) {
                    0
                } else {
                    1
                };
                frame::lemma_room(m1, cg);
                pt::lemma_grabs_room(m1, cg, k);
                space::lemma_grabs_add(m0.fa, cg, k1(m0, src, dst, ai, bi), k);
            }
            copy_l0(m, src, dst, a, b);
            proof {
                pt::lemma_grows_trans(m0, m2, m@, dst);
                space::lemma_only_trans(m0, m2, m@, dst);
                copy::lemma_leaves_trans(m0, m2, m@, src);
                copy::lemma_tables_trans(m0, m1, m2, m@, src);
                lemma_kcopied_compose(m0, m2, m@, src, dst, d1, d2, d3);
                assert forall|x: int| pt::ix(x) implies #[trigger] pt::has1(m@, dst, x) == pt::has1(
                    m0,
                    dst,
                    x,
                ) by {
                    assert(pt::has1(m2, dst, x) == pt::has1(m1, dst, x));
                }
                assert forall|x: int, y: int|
                    pt::ix(x) && pt::ix(y) && (x != ai || y >= bi + 1) implies #[trigger] pt::has0(
                    m@,
                    dst,
                    x,
                    y,
                ) == pt::has0(m0, dst, x, y) by {
                    assert(pt::has0(m2, dst, x, y) == pt::has0(m1, dst, x, y));
                }
                assert forall|y: int| pt::ix(y) && y < bi + 1 implies #[trigger] pt::has0(m@, dst, ai, y) == (
                pt::has0(m0, dst, ai, y) || pt::has0(m0, src, ai, y)) by {
                    assert(pt::has0(m2, dst, ai, y) == (pt::has0(m1, dst, ai, y) || y == bi));
                    assert(pt::has0(m@, dst, ai, y) == pt::has0(m2, dst, ai, y));
                }
            }
        } else {
            proof {
                assert(!pt::has0(m0, src, ai, bi));
                pt::lemma_flag_consts();
                assert forall|x: int, y: int, z: int| pt::ix(x) && pt::ix(y) && pt::ix(z) implies #[trigger] pt::leaf(
                    m1,
                    dst,
                    x,
                    y,
                    z,
                ) == if d3(x, y, z) && kl(pt::leaf(m0, src, x, y, z)) {
                    pt::leaf(m0, src, x, y, z)
                } else {
                    pt::leaf(m0, dst, x, y, z)
                } by {
                    assert(d1(x, y, z) == (x == ai && y < bi));
                }
            }
        }
        b = b + 1;
        proof {
            assert forall|x: int, y: int, z: int| pt::ix(x) && pt::ix(y) && pt::ix(z) implies #[trigger] pt::leaf(
                m@,
                dst,
                x,
                y,
                z,
            ) == if x == ai && y < b && kl(pt::leaf(m0, src, x, y, z)) {
                pt::leaf(m0, src, x, y, z)
            } else {
                pt::leaf(m0, dst, x, y, z)
            } by {
                assert(d3(x, y, z) == (x == ai && y < b));
            }
        }
    }
    proof {
        assert forall|x: int, y: int, z: int| pt::ix(x) && pt::ix(y) && pt::ix(z) implies #[trigger] pt::leaf(
            m@,
            dst,
            x,
            y,
            z,
        ) == if x == ai && kl(pt::leaf(m0, src, x, y, z)) {
            pt::leaf(m0, src, x, y, z)
        } else {
            pt::leaf(m0, dst, x, y, z)
        } by {}
    }
    true
}

/// Below root entry `a`, `dst` has its tables and those that `src` has.
pub open spec fn joined(m: MemV, n: MemV, src: u64, dst: u64, a: int) -> bool {
    &&& forall|x: int|
        pt::ix(x) && x < a ==> #[trigger] pt::has1(n, dst, x) == (pt::has1(m, dst, x) || pt::has1(m, src, x))
    &&& forall|x: int, y: int|
        pt::ix(x) && pt::ix(y) && x < a ==> #[trigger] pt::has0(n, dst, x, y) == (pt::has0(m, dst, x, y)
            || pt::has0(m, src, x, y))
}

/// Copies the kernel mappings of `src` into `dst`, new tables charged to `cg`.
#[verifier::spinoff_prover]
#[verifier::rlimit(60)]
pub fn copy_kernel_tables(m: &mut Mem, src: u64, dst: u64, cg: usize) -> (ok: bool)
    requires
        copy::pair_wf(old(m)@, src, dst),
        copy::bare(old(m)@, dst),
    ensures
        copy::bare(final(m)@, dst),
        copy::pair_wf(final(m)@, src, dst),
        pt::only_grows(old(m)@, final(m)@, dst),
        space::space_only(old(m)@, final(m)@, dst),
        pt::same_tables(old(m)@, final(m)@, src),
        pt::same_leaves(old(m)@, final(m)@, src),
        ok == (k2(old(m)@, src, dst, WORDS as int) <= old(m)@.fa.room(cg)),
        ok ==> final(m)@.fa == old(m)@.fa.grabs(cg, k2(old(m)@, src, dst, WORDS as int)),
        !ok ==> final(m)@.fa == old(m)@.fa.grabs(cg, old(m)@.fa.room(cg)),
        ok ==> kcopied(old(m)@, final(m)@, src, dst, copy::everywhere()),
        ok ==> joined(old(m)@, final(m)@, src, dst, WORDS as int),
{
    let ghost m0 = m@;
    let mut a: u64 = 0;
    proof {
        pt::lemma_grows_refl(m0, dst);
        space::lemma_only_refl(m0, dst);
    }
    while a < 512
        invariant
            m0 == old(m)@,
            a <= WORDS,
            copy::pair_wf(m0, src, dst),
            copy::pair_wf(m@, src, dst),
            copy::bare(m@, dst),
            pt::only_grows(m0, m@, dst),
            space::space_only(m0, m@, dst),
            pt::same_tables(m0, m@, src),
            pt::same_leaves(m0, m@, src),
            forall|x: int| pt::ix(x) && x >= a ==> #[trigger] pt::has1(m@, dst, x) == pt::has1(m0, dst, x),
            forall|x: int, y: int|
                pt::ix(x) && pt::ix(y) && x >= a ==> #[trigger] pt::has0(m@, dst, x, y) == pt::has0(
                    m0,
                    dst,
                    x,
                    y,
                ),
            k2(m0, src, dst, a as int) <= m0.fa.room(cg),
            m@.fa == m0.fa.grabs(cg, k2(m0, src, dst, a as int)),
            m@.fa.room(cg) == m0.fa.room(cg) - k2(m0, src, dst, a as int),
            kcopied(m0, m@, src, dst, |x: int, y: int, z: int| x < a),
            joined(m0, m@, src, dst, a as int),
        decreases 512 - a,
    {
        let ghost m1 = m@;
        let ghost ai = a as int;
        let ghost d1 = |x: int, y: int, z: int| x < ai;
        let ghost d2 = |x: int, y: int, z: int| x == ai;
        let ghost d3 = |x: int, y: int, z: int| x < ai + 1;
        proof {
            lemma_k2_mono(m0, src, dst, ai + 1, WORDS as int);
            assert(pt::has1(m1, src, ai) == pt::has1(m0, src, ai));
            assert(pt::has1(m1, dst, ai) == pt::has1(m0, dst, ai));
        }
        let e2 = pt::rd_word(m, src, a);
        if e2 & PTE_V != 0 {
            match copy::ensure_l1(m, dst, a, cg) {
                Some(_) => {},
                None => {
                    return false;
                },
            }
            let ghost m2 = m@;
            proof {
                lemma_bare_kept(m1, m2, dst);
                copy::lemma_other_kept(m1, m2, src, dst);
                pt::lemma_grows_trans(m0, m1, m2, dst);
                space::lemma_only_trans(m0, m1, m2, dst);
                lemma_kcopied_lasts(m0, m1, m2, src, dst, d1);
                copy::lemma_leaves_trans(m0, m1, m2, src);
                copy::lemma_tables_trans(m0, m1, m2, m2, src);
                assert forall|y: int| pt::ix(y) implies #[trigger] pt::has0(m2, dst, ai, y) == pt::has0(
                    m0,
                    dst,
                    ai,
                    y,
                ) by {
                    assert(pt::has0(m2, dst, ai, y) == pt::has0(m1, dst, ai, y));
                }
                lemma_k1_kept(m0, m2, src, dst, ai, WORDS as int);
                let k: nat = if pt::has1(m1, dst, ai) {
                    0
                } else {
                    1
                };
                frame::lemma_room(m1, cg);
                pt::lemma_grabs_room(m1, cg, k);
                space::lemma_grabs_add(m0.fa, cg, k2(m0, src, dst, ai), k);
                space::lemma_grabs_add(
                    m0.fa,
                    cg,
                    k2(m0, src, dst, ai) + k,
                    k1(m0, src, dst, ai, WORDS as int),
                );
            }
            let ok = copy_l1(m, src, dst, a, cg);
            proof {
                pt::lemma_grows_trans(m0, m2, m@, dst);
                space::lemma_only_trans(m0, m2, m@, dst);
                copy::lemma_leaves_trans(m0, m2, m@, src);
                copy::lemma_tables_trans(m0, m1, m2, m@, src);
            }
            if !ok {
                proof {
                    space::lemma_grabs_add(
                        m0.fa,
                        cg,
                        (m0.fa.room(cg) - m2.fa.room(cg)) as nat,
                        m2.fa.room(cg),
                    );
                }
                return false;
            }
            proof {
                pt::lemma_grabs_room(m2, cg, k1(m0, src, dst, ai, WORDS as int));
                lemma_kcopied_compose(m0, m2, m@, src, dst, d1, d2, d3);
                assert forall|x: int| pt::ix(x) && x >= ai + 1 implies #[trigger] pt::has1(m@, dst, x)
                    == pt::has1(m0, dst, x) by {
                    assert(pt::has1(m2, dst, x) == pt::has1(m1, dst, x));
                }
                assert forall|x: int, y: int| pt::ix(x) && pt::ix(y) && x >= ai + 1 implies #[trigger] pt::has0(
                    m@,
                    dst,
                    x,
                    y,
                ) == pt::has0(m0, dst, x, y) by {
                    assert(pt::has0(m2, dst, x, y) == pt::has0(m1, dst, x, y));
                }
                assert forall|x: int| pt::ix(x) && x < ai + 1 implies #[trigger] pt::has1(m@, dst, x) == (pt::has1(
                    m0,
                    dst,
                    x,
                ) || pt::has1(m0, src, x)) by {
                    assert(pt::has1(m@, dst, x) == pt::has1(m2, dst, x));
                    assert(pt::has1(m2, dst, x) == (pt::has1(m1, dst, x) || x == ai));
                }
                assert forall|x: int, y: int| pt::ix(x) && pt::ix(y) && x < ai + 1 implies #[trigger] pt::has0(
                    m@,
                    dst,
                    x,
                    y,
                ) == (pt::has0(m0, dst, x, y) || pt::has0(m0, src, x, y)) by {
                    assert(pt::has0(m2, dst, x, y) == pt::has0(m1, dst, x, y));
                    assert(pt::has0(m2, src, x, y) == pt::has0(m0, src, x, y));
                }
            }
        } else {
            proof {
                assert(!pt::has1(m0, src, ai));
                assert forall|y: int| pt::ix(y) implies !#[trigger] pt::has0(m0, src, ai, y) by {}
                pt::lemma_flag_consts();
                assert forall|x: int, y: int, z: int| pt::ix(x) && pt::ix(y) && pt::ix(z) implies #[trigger] pt::leaf(
                    m1,
                    dst,
                    x,
                    y,
                    z,
                ) == if d3(x, y, z) && kl(pt::leaf(m0, src, x, y, z)) {
                    pt::leaf(m0, src, x, y, z)
                } else {
                    pt::leaf(m0, dst, x, y, z)
                } by {
                    assert(d1(x, y, z) == (x < ai));
                }
            }
        }
        a = a + 1;
        proof {
            assert forall|x: int, y: int, z: int| pt::ix(x) && pt::ix(y) && pt::ix(z) implies #[trigger] pt::leaf(
                m@,
                dst,
                x,
                y,
                z,
            ) == if x < a && kl(pt::leaf(m0, src, x, y, z)) {
                pt::leaf(m0, src, x, y, z)
            } else {
                pt::leaf(m0, dst, x, y, z)
            } by {
                assert(d3(x, y, z) == (x < a));
            }
        }
    }
    proof {
        assert forall|x: int, y: int, z: int| pt::ix(x) && pt::ix(y) && pt::ix(z) implies #[trigger] pt::leaf(
            m@,
            dst,
            x,
            y,
            z,
        ) == if copy::everywhere()(x, y, z) && kl(pt::leaf(m0, src, x, y, z)) {
            pt::leaf(m0, src, x, y, z)
        } else {
            pt::leaf(m0, dst, x, y, z)
        } by {}
    }
    true
}

// ---- fresh address spaces ----

/// Frames in use before are unchanged and still in use.
pub open spec fn keeps_live(m: MemV, n: MemV) -> bool {
    forall|t: u64|
        frame::in_ram(t) && !m.free(t) ==> #[trigger] n.ram[frame::fi(t)] == m.ram[frame::fi(t)] && !n.free(t)
}

/// Tables below a root, up to entry `b` of entry `a`.
pub open spec fn l0_count(m: MemV, root: u64, a: int, b: int) -> nat
    decreases b,
{
    if b <= 0 {
        0
    } else {
        l0_count(m, root, a, b - 1) + if pt::has0(m, root, a, b - 1) {
            1nat
        } else {
            0
        }
    }
}

/// Tables below a root, up to entry `a`.
pub open spec fn table_count(m: MemV, root: u64, a: int) -> nat
    decreases a,
{
    if a <= 0 {
        0
    } else {
        table_count(m, root, a - 1) + if pt::has1(m, root, a - 1) {
            1 + l0_count(m, root, a - 1, WORDS as int)
        } else {
            0
        }
    }
}

proof fn lemma_fresh_counts(m: MemV, n: MemV, src: u64, dst: u64, a: int, b: int)
    requires
        pt::same_tables(m, n, src),
        forall|x: int| pt::ix(x) ==> !(#[trigger] pt::has1(n, dst, x)),
        0 <= a <= WORDS,
        0 <= b <= WORDS,
    ensures
        k2(n, src, dst, a) == table_count(m, src, a),
        a < WORDS ==> k1(n, src, dst, a, b) == l0_count(m, src, a, b),
    decreases a, b,
{
    if a < WORDS && b > 0 {
        lemma_fresh_counts(m, n, src, dst, a, b - 1);
        assert(pt::has0(n, src, a, b - 1) == pt::has0(m, src, a, b - 1));
        assert(!pt::has1(n, dst, a));
    }
    if a > 0 {
        lemma_fresh_counts(m, n, src, dst, a - 1, WORDS as int);
        assert(pt::has1(n, src, a - 1) == pt::has1(m, src, a - 1));
        assert(!pt::has1(n, dst, a - 1));
    }
}

/// What a fresh space looks like: the kernel's mappings and nothing else, in
/// frames that were free before; it owns every frame that was taken.
pub open spec fn fresh_space(m: MemV, n: MemV, kroot: u64, root: u64) -> bool {
    &&& space::space_wf(n, root)
    &&& copy::bare(n, root)
    &&& forall|t: u64| #[trigger] space::owns(n, root, t) ==> m.free(t)
    &&& forall|t: u64| #[trigger] n.free(t) ==> m.free(t)
    &&& forall|t: u64| #![trigger n.free(t)] m.free(t) && !n.free(t) ==> space::owns(n, root, t)
    &&& forall|x: int, y: int, z: int|
        pt::ix(x) && pt::ix(y) && pt::ix(z) ==> #[trigger] pt::leaf(n, root, x, y, z) == if kl(
            pt::leaf(m, kroot, x, y, z),
        ) {
            pt::leaf(m, kroot, x, y, z)
        } else {
            0
        }
    &&& forall|x: int| pt::ix(x) ==> #[trigger] pt::has1(n, root, x) == pt::has1(m, kroot, x)
    &&& forall|x: int, y: int|
        pt::ix(x) && pt::ix(y) ==> #[trigger] pt::has0(n, root, x, y) == pt::has0(m, kroot, x, y)
}

/// A zeroed frame is an empty address space.
proof fn lemma_empty_root(m: MemV, cg: usize, kroot: u64)
    requires
        m.wf(),
        space::space_wf(m, kroot),
        m.fa.can_alloc(cg),
    ensures
        copy::pair_wf(m.grab(cg), kroot, m.fa.next_frame()),
        copy::bare(m.grab(cg), m.fa.next_frame()),
        pt::same_tables(m, m.grab(cg), kroot),
        pt::same_leaves(m, m.grab(cg), kroot),
        forall|x: int| pt::ix(x) ==> !(#[trigger] pt::has1(m.grab(cg), m.fa.next_frame(), x)),
        forall|t: u64| #[trigger] space::owns(m.grab(cg), m.fa.next_frame(), t) ==> t == m.fa.next_frame(),
        keeps_live(m, m.grab(cg)),
{
    let r = m.fa.next_frame();
    let n = m.grab(cg);
    frame::law_alloc(m, cg);
    pt::lemma_flag_consts();
    assert forall|t: u64| frame::in_ram(t) && !m.free(t) implies #[trigger] n.ram[frame::fi(t)]
        == m.ram[frame::fi(t)] && !n.free(t) by {
        pt::lemma_fi_inj(t, r);
    }
    assert forall|t: u64| #[trigger] space::owns(m, kroot, t) implies n.ram[frame::fi(t)]
        == m.ram[frame::fi(t)] && !n.free(t) by {
        space::lemma_owned_live(m, kroot, t);
    }
    space::lemma_space_kept(m, n, kroot);
    assert forall|x: int| pt::ix(x) implies !(#[trigger] pt::has1(n, r, x)) by {
        assert(pt::rd(n, r, x) == 0);
    }
    assert forall|x: int, y: int, z: int| !(#[trigger] space::upage(n, r, x, y, z)) by {
        if pt::ix(x) && pt::ix(y) && pt::ix(z) {
            assert(!pt::has1(n, r, x));
            assert(pt::leaf(n, r, x, y, z) == 0);
        }
    }
    assert forall|t: u64| #[trigger] space::owns(n, r, t) implies t == r by {
        if t != r && pt::is_table(n, r, t) {
            assert(false);
        }
    }
    assert(pt::tables_wf(n, r));
    assert(space::apart(n, kroot, r)) by {
        assert forall|t: u64| #[trigger] space::owns(n, kroot, t) implies !space::owns(n, r, t) by {
            assert(space::owns(m, kroot, t));
            space::lemma_owned_live(m, kroot, t);
        }
    }
}

/// A fresh address space with the kernel's mappings, charged to `cg`. None
/// when a frame cannot be had; what was built of it is torn down then, and the
/// allocator has what it had.
#[verifier::spinoff_prover]
#[verifier::rlimit(60)]
pub fn new_user_space(m: &mut Mem, kroot: u64, cg: usize) -> (r: Option<u64>)
    requires
        old(m)@.wf(),
        space::space_wf(old(m)@, kroot),
    ensures
        final(m)@.wf(),
        keeps_live(old(m)@, final(m)@),
        r is Some <==> 1 + table_count(old(m)@, kroot, WORDS as int) <= old(m)@.fa.room(cg),
        r matches Some(root) ==> {
            &&& root == old(m)@.fa.next_frame()
            &&& fresh_space(old(m)@, final(m)@, kroot, root)
            &&& final(m)@.fa == old(m)@.fa.grabs(cg, 1 + table_count(old(m)@, kroot, WORDS as int))
        },
        r is None ==> frame::same_use(old(m)@, final(m)@),
{
    let ghost m0 = m@;
    proof {
        frame::lemma_room(m0, cg);
    }
    let root: u64 = match frame::alloc_frame_cg(m, cg) {
        Some(p) => p,
        None => {
            proof {
                frame::lemma_same_use(m0, m0);
            }
            return None;
        },
    };
    let ghost m1 = m@;
    proof {
        lemma_empty_root(m0, cg, kroot);
        lemma_fresh_counts(m0, m1, kroot, root, WORDS as int, 0);
        reveal_with_fuel(frame::FrameV::grabs, 2);
        assert(m1.fa == m0.fa.grabs(cg, 1));
        frame::law_alloc(m0, cg);
        space::lemma_grabs_add(m0.fa, cg, 1, k2(m1, kroot, root, WORDS as int));
        space::lemma_grabs_add(m0.fa, cg, 1, m1.fa.room(cg));
    }
    let ok = copy_kernel_tables(m, kroot, root, cg);
    let ghost m2 = m@;
    proof {
        assert(m0.free(root));
        assert forall|t: u64| frame::in_ram(t) && !m0.free(t) implies #[trigger] m2.ram[frame::fi(t)]
            == m0.ram[frame::fi(t)] && !m2.free(t) by {
            assert(m1.ram[frame::fi(t)] == m0.ram[frame::fi(t)]);
            assert(t != root);
            assert(!space::owns(m1, root, t));
            assert(m2.free(t) ==> m1.free(t));
        }
        assert forall|t: u64| #[trigger] space::owns(m2, root, t) implies m0.free(t) by {
            assert(space::owns(m1, root, t) || m1.free(t));
        }
    }
    proof {
        assert forall|t: u64| #[trigger] m2.free(t) implies m0.free(t) by {
            assert(m1.free(t));
        }
        assert forall|t: u64| #![trigger m2.free(t)] m0.free(t) && !m2.free(t) implies space::owns(
            m2,
            root,
            t,
        ) by {
            if t == root {
                assert(space::owns(m1, root, root));
            } else {
                assert(m1.free(t));
            }
        }
    }
    if !ok {
        teardown::free_user_space(m, root);
        proof {
            frame::lemma_owners_grabs(m0, m2, cg, m0.fa.room(cg));
            teardown::lemma_undo(m0, m2, m@, root);
        }
        return None;
    }
    proof {
        assert forall|x: int, y: int, z: int| pt::ix(x) && pt::ix(y) && pt::ix(z) implies #[trigger] pt::leaf(
            m2,
            root,
            x,
            y,
            z,
        ) == if kl(pt::leaf(m0, kroot, x, y, z)) {
            pt::leaf(m0, kroot, x, y, z)
        } else {
            0
        } by {
            assert(pt::leaf(m1, kroot, x, y, z) == pt::leaf(m0, kroot, x, y, z));
            assert(!pt::has1(m1, root, x));
            assert(pt::leaf(m1, root, x, y, z) == 0);
            assert(copy::everywhere()(x, y, z));
        }
        assert forall|x: int| pt::ix(x) implies #[trigger] pt::has1(m2, root, x) == pt::has1(m0, kroot, x) by {
            assert(!pt::has1(m1, root, x));
            assert(pt::has1(m1, kroot, x) == pt::has1(m0, kroot, x));
        }
        assert forall|x: int, y: int| pt::ix(x) && pt::ix(y) implies #[trigger] pt::has0(m2, root, x, y)
            == pt::has0(m0, kroot, x, y) by {
            assert(!pt::has1(m1, root, x));
            assert(!pt::has0(m1, root, x, y));
            assert(pt::has0(m1, kroot, x, y) == pt::has0(m0, kroot, x, y));
        }
    }
    Some(root)
}

// ---- the kernel's own space ----

/// Where the linker put the kernel's sections.
pub struct Sections {
    pub stext: u64,
    pub etext: u64,
    pub srodata: u64,
    pub erodata: u64,
    pub sdata: u64,
    pub edata: u64,
    pub sbss: u64,
    pub ebss: u64,
}

/// A section lies in RAM, on a page boundary, with a page to spare.
pub open spec fn section_ok(start: u64, end: u64) -> bool {
    RAM_BASE <= start <= end && end + PAGE_SIZE <= MEMORY_END && start % PAGE_SIZE == 0
}

impl Sections {
    pub open spec fn wf(self) -> bool {
        &&& section_ok(self.stext, self.etext)
        &&& section_ok(self.srodata, self.erodata)
        &&& section_ok(self.sdata, self.edata)
        &&& section_ok(self.sbss, self.ebss)
    }
}

/// Serial port and virtio device registers.
pub const MMIO_START: u64 = 0x1000_0000;

pub const MMIO_END: u64 = 0x1000_8000;

/// Interrupt controller registers.
pub const PLIC_START: u64 = 0x0c00_0000;

pub const PLIC_END: u64 = 0x0c30_0000;

/// Frames that suffice for the kernel's tables.
pub const KERNEL_FRAMES: u64 = 512;

/// Entry the kernel space has for the page at `va`: RAM and device registers
/// map to themselves, RAM with every permission.
pub open spec fn kernel_leaf(va: u64) -> u64 {
    if RAM_BASE <= va < MEMORY_END {
        pt::pte_new_of(va, PTE_RWX | PTE_VAD)
    } else if MMIO_START <= va < MMIO_END || PLIC_START <= va < PLIC_END {
        pt::pte_new_of(va, (PTE_R | PTE_W) | PTE_VAD)
    } else {
        0
    }
}

/// Groups of `k` pages that the first `n` pages from page `p` on fall into.
pub open spec fn groups(p: int, n: int, k: int) -> int {
    if n <= 0 {
        0
    } else {
        (p + n - 1) / k - p / k + 1
    }
}

/// A range of pages needs at most one table per 2 MiB and one per 1 GiB.
proof fn lemma_range_bound(m: MemV, root: u64, va: u64, n: nat)
    requires
        va % PAGE_SIZE == 0,
        va + n * PAGE_SIZE <= VA_END,
    ensures
        pt::range_tables(m, root, va, n) <= groups(va as int / 4096, n as int, 512) + groups(
            va as int / 4096,
            n as int,
            0x4_0000,
        ),
    decreases n,
{
    if n > 0 {
        let i = (n - 1) as nat;
        lemma_range_bound(m, root, va, i);
        let v = pt::page_va(va, i);
        space::lemma_indices(v);
        let p = va as int / 4096;
        assert(v as int / 4096 == p + i);
        let x = pt::vpn_of(v, 2);
        let y = pt::vpn_of(v, 1);
        if i > 0 {
            let w = pt::page_va(va, (i - 1) as nat);
            space::lemma_indices(w);
            assert(w as int / 4096 == p + i - 1);
            if (p + i) / 512 == (p + i - 1) / 512 {
                assert(pt::touches0(va, i, x, y));
            }
            if (p + i) / 0x4_0000 == (p + i - 1) / 0x4_0000 {
                assert(pt::touches1(va, i, x));
            }
        }
    }
}

/// After mapping a range to itself, page by page.
proof fn lemma_identity_leaf(m: MemV, root: u64, va: u64, flags: u64, n: nat, u: u64)
    requires
        va % PAGE_SIZE == 0,
        va + n * PAGE_SIZE <= VA_END,
        u < VA_END,
        u % PAGE_SIZE == 0,
    ensures
        pt::range_leaf(
            m,
            root,
            va,
            va,
            flags,
            n,
            pt::vpn_of(u, 2),
            pt::vpn_of(u, 1),
            pt::vpn_of(u, 0),
        ) == if va <= u < va + n * PAGE_SIZE {
            pt::pte_new_of(u, flags | PTE_VAD)
        } else {
            pt::leaf_at(m, root, u)
        },
    decreases n,
{
    if n > 0 {
        let i = (n - 1) as nat;
        lemma_identity_leaf(m, root, va, flags, i, u);
        space::lemma_same_page(u, pt::page_va(va, i));
    }
}

/// Maps `[start, start + len)` to itself.
fn map_identity(m: &mut Mem, root: u64, start: u64, len: u64, flags: u64) -> (ok: bool)
    requires
        old(m)@.wf(),
        pt::tables_wf(old(m)@, root),
        start % PAGE_SIZE == 0,
        start + len + PAGE_SIZE <= VA_END,
    ensures
        final(m)@.wf(),
        pt::tables_wf(final(m)@, root),
        pt::only_grows(old(m)@, final(m)@, root),
        ok ==> forall|u: u64|
            u < VA_END && u % PAGE_SIZE == 0 ==> #[trigger] pt::leaf_at(final(m)@, root, u) == if start <= u
                < start + len {
                pt::pte_new_of(u, flags | PTE_VAD)
            } else {
                pt::leaf_at(old(m)@, root, u)
            },
        ok == (pt::range_tables(old(m)@, root, start, pt::pages(len)) <= old(m)@.fa.room(0)),
        ok ==> final(m)@.fa.room(0) == old(m)@.fa.room(0) - pt::range_tables(
            old(m)@,
            root,
            start,
            pt::pages(len),
        ),
        ok ==> pt::tables_seen(old(m)@, final(m)@, root, start, pt::pages(len)),
        pt::range_tables(old(m)@, root, start, pt::pages(len)) <= groups(
            start as int / 4096,
            pt::pages(len) as int,
            512,
        ) + groups(start as int / 4096, pt::pages(len) as int, 0x4_0000),
{
    let ok = pt::map(m, root, start, start, len, flags, 0);
    proof {
        lemma_range_bound(old(m)@, root, start, pt::pages(len));
        if ok {
            assert forall|u: u64| u < VA_END && u % PAGE_SIZE == 0 implies #[trigger] pt::leaf_at(
                m@,
                root,
                u,
            ) == if start <= u < start + len {
                pt::pte_new_of(u, flags | PTE_VAD)
            } else {
                pt::leaf_at(old(m)@, root, u)
            } by {
                space::lemma_indices(u);
                lemma_identity_leaf(old(m)@, root, start, flags, pt::pages(len), u);
            }
        }
    }
    ok
}

fn at_least_page(a: u64, b: u64) -> (len: u64)
    requires
        a <= b,
    ensures
        len == if b - a < PAGE_SIZE {
            PAGE_SIZE as int
        } else {
            b - a
        },
{
    if b - a < PAGE_SIZE {
        PAGE_SIZE
    } else {
        b - a
    }
}

/// Bytes of a section that are mapped: a page at least.
pub open spec fn section_len(a: u64, b: u64) -> u64 {
    if b - a < PAGE_SIZE {
        PAGE_SIZE
    } else {
        (b - a) as u64
    }
}

/// The regions of the kernel space in the order they are mapped: start,
/// length, flags.
pub open spec fn regions_of(s: Sections) -> Seq<(u64, u64, u64)> {
    seq![
        (s.stext, (s.etext - s.stext) as u64, PTE_R | PTE_X),
        (s.srodata, section_len(s.srodata, s.erodata), PTE_R),
        (s.sdata, section_len(s.sdata, s.edata), PTE_R | PTE_W),
        (s.sbss, section_len(s.sbss, s.ebss), PTE_R | PTE_W),
        (RAM_BASE, (MEMORY_END - RAM_BASE) as u64, PTE_RWX),
        (MMIO_START, (MMIO_END - MMIO_START) as u64, PTE_R | PTE_W),
        (PLIC_START, (PLIC_END - PLIC_START) as u64, PTE_R | PTE_W),
    ]
}

/// Tables once the first `k` regions are mapped; no page takes a frame.
pub open spec fn regions_shape(rs: Seq<(u64, u64, u64)>, k: int) -> Shape
    decreases k,
{
    if k <= 0 {
        Shape { has1: |x: int| false, has0: |x: int, y: int| false, page: |u: u64| true }
    } else {
        shape::grown(regions_shape(rs, k - 1), rs[k - 1].0, pt::pages(rs[k - 1].1))
    }
}

/// Tables that the first `k` regions take, one after the other.
pub open spec fn regions_need(rs: Seq<(u64, u64, u64)>, k: int) -> nat
    decreases k,
{
    if k <= 0 {
        0
    } else {
        regions_need(rs, k - 1) + shape::range_need(
            regions_shape(rs, k - 1),
            rs[k - 1].0,
            pt::pages(rs[k - 1].1),
        )
    }
}

/// Frames that the kernel space takes: its root and its tables.
pub open spec fn boot_cost(s: Sections) -> nat {
    1 + regions_need(regions_of(s), 7)
}

proof fn lemma_regions_pages(rs: Seq<(u64, u64, u64)>, k: int)
    ensures
        forall|u: u64| #[trigger] (regions_shape(rs, k).page)(u),
    decreases k,
{
    if k > 0 {
        lemma_regions_pages(rs, k - 1);
        assert forall|u: u64| #[trigger] (regions_shape(rs, k).page)(u) by {
            assert((regions_shape(rs, k - 1).page)(u));
        }
    }
}

proof fn lemma_regions_mono(rs: Seq<(u64, u64, u64)>, k: int, n: int)
    requires
        k <= n,
    ensures
        regions_need(rs, k) <= regions_need(rs, n),
    decreases n - k,
{
    if k < n {
        lemma_regions_mono(rs, k, n - 1);
    }
}

/// Builds the kernel's address space: its sections, all of RAM, and the
/// device registers, mapped to themselves. None when frames run out.
pub fn init_kernel_space(m: &mut Mem, s: &Sections) -> (r: Option<u64>)
    requires
        old(m)@.wf(),
        s.wf(),
    ensures
        final(m)@.wf(),
        keeps_live(old(m)@, final(m)@),
        r matches Some(root) ==> {
            &&& root == old(m)@.fa.next_frame()
            &&& space::space_wf(final(m)@, root)
            &&& forall|u: u64|
                u < VA_END && u % PAGE_SIZE == 0 ==> #[trigger] pt::leaf_at(final(m)@, root, u)
                    == kernel_leaf(u)
        },
        r is Some <==> boot_cost(*s) <= old(m)@.fa.room(0),
        old(m)@.fa.room(0) >= KERNEL_FRAMES ==> r is Some,
{
    let ghost m0 = m@;
    proof {
        frame::lemma_room(m0, 0);
    }
    let root: u64 = match frame::alloc_frame_cg(m, 0) {
        Some(p) => p,
        None => {
            return None;
        },
    };
    let ghost m1 = m@;
    proof {
        lemma_zero_root(m0, 0);
        pt::lemma_grows_refl(m1, root);
    }
    let rs: [(u64, u64, u64); 7] = [
        (s.stext, s.etext - s.stext, PTE_R | PTE_X),
        (s.srodata, at_least_page(s.srodata, s.erodata), PTE_R),
        (s.sdata, at_least_page(s.sdata, s.edata), PTE_R | PTE_W),
        (s.sbss, at_least_page(s.sbss, s.ebss), PTE_R | PTE_W),
        (RAM_BASE, MEMORY_END - RAM_BASE, PTE_RWX),
        (MMIO_START, MMIO_END - MMIO_START, PTE_R | PTE_W),
        (PLIC_START, PLIC_END - PLIC_START, PTE_R | PTE_W),
    ];
    let ghost regions = rs@;
    let mut k: usize = 0;
    proof {
        assert(regions =~= regions_of(*s));
        assert(shape::tables_as(m1, root, regions_shape(regions, 0))) by {
            assert forall|x: int, y: int| pt::ix(x) && pt::ix(y) implies !(#[trigger] pt::has0(
                m1,
                root,
                x,
                y,
            )) by {
                assert(!pt::has1(m1, root, x));
            }
        }
        frame::law_alloc(m0, 0);
    }
    while k < 7
        invariant
            k <= 7,
            rs@ == regions,
            regions.len() == 7,
            forall|i: int| 0 <= i < 7 ==> region_ok(#[trigger] regions[i]),
            m@.wf(),
            pt::tables_wf(m@, root),
            pt::only_grows(m1, m@, root),
            forall|u: u64| #[trigger] pt::leaf_at(m1, root, u) == 0,
            regions == regions_of(*s),
            shape::tables_as(m@, root, regions_shape(regions, k as int)),
            m@.fa.room(0) == m0.fa.room(0) - 1 - regions_need(regions, k as int),
            regions_need(regions, k as int) <= 68 * k,
            forall|u: u64|
                u < VA_END && u % PAGE_SIZE == 0 ==> #[trigger] pt::leaf_at(m@, root, u) == regions_leaf(
                    regions,
                    k as int,
                    u,
                ),
            keeps_live(m0, m1),
            forall|t: u64| #[trigger] pt::is_table(m1, root, t) ==> t == root,
            m0.free(root),
            m0 == old(m)@,
            m0.wf(),
            m1.wf(),
            m0.fa.room(0) > 0,
        decreases 7 - k,
    {
        let ghost m2 = m@;
        assert(region_ok(regions[k as int]));
        proof {
            lemma_regions_pages(regions, k as int);
            lemma_regions_mono(regions, k + 1, 7);
            shape::lemma_tables_need(
                m2,
                root,
                regions_shape(regions, k as int),
                regions[k as int].0,
                pt::pages(regions[k as int].1),
            );
        }
        let ok = map_identity(m, root, rs[k].0, rs[k].1, rs[k].2);
        proof {
            pt::lemma_grows_trans(m1, m2, m@, root);
        }
        if !ok {
            proof {
                lemma_boot_live(m0, m1, m@, root);
            }
            return None;
        }
        proof {
            shape::lemma_tables_grown(
                m2,
                m@,
                root,
                regions_shape(regions, k as int),
                regions[k as int].0,
                pt::pages(regions[k as int].1),
            );
        }
        k += 1;
    }
    proof {
        lemma_boot_live(m0, m1, m@, root);
        reveal_with_fuel(regions_leaf, 8);
        assert forall|u: u64| u < VA_END && u % PAGE_SIZE == 0 implies #[trigger] pt::leaf_at(m@, root, u)
            == kernel_leaf(u) by {
            assert(regions_leaf(regions, 7, u) == kernel_leaf(u));
        }
        lemma_kernel_no_user(m@, root);
    }
    Some(root)
}

/// A region of the kernel space: start, length, flags.
pub open spec fn region_ok(r: (u64, u64, u64)) -> bool {
    r.0 % PAGE_SIZE == 0 && r.0 + r.1 <= MEMORY_END && r.1 <= MEMORY_END - RAM_BASE
}

/// Entry for the page at `u` after the first `k` regions are mapped in order.
pub open spec fn regions_leaf(rs: Seq<(u64, u64, u64)>, k: int, u: u64) -> u64
    decreases k,
{
    if k <= 0 {
        0
    } else if rs[k - 1].0 <= u < rs[k - 1].0 + rs[k - 1].1 {
        pt::pte_new_of(u, rs[k - 1].2 | PTE_VAD)
    } else {
        regions_leaf(rs, k - 1, u)
    }
}

/// A kernel space has no user pages.
proof fn lemma_kernel_no_user(m: MemV, root: u64)
    requires
        pt::tables_wf(m, root),
        forall|u: u64|
            u < VA_END && u % PAGE_SIZE == 0 ==> #[trigger] pt::leaf_at(m, root, u) == kernel_leaf(u),
    ensures
        space::space_wf(m, root),
{
    assert forall|x: int, y: int, z: int| !(#[trigger] space::upage(m, root, x, y, z)) by {
        if pt::ix(x) && pt::ix(y) && pt::ix(z) {
            lemma_page_at(x, y, z);
            let u = page_at(x, y, z);
            assert(pt::leaf_at(m, root, u) == pt::leaf(m, root, x, y, z));
            lemma_kernel_leaf_not_user(u);
        }
    }
}

/// Address of the page with these indices.
pub open spec fn page_at(x: int, y: int, z: int) -> u64 {
    (x * 0x4000_0000 + y * 0x20_0000 + z * 0x1000) as u64
}

proof fn lemma_page_at(x: int, y: int, z: int)
    requires
        pt::ix(x),
        pt::ix(y),
        pt::ix(z),
    ensures
        page_at(x, y, z) < VA_END,
        page_at(x, y, z) % PAGE_SIZE == 0,
        pt::vpn_of(page_at(x, y, z), 2) == x,
        pt::vpn_of(page_at(x, y, z), 1) == y,
        pt::vpn_of(page_at(x, y, z), 0) == z,
{
    let u = page_at(x, y, z);
    space::lemma_indices(u);
    let p = x * 0x4_0000 + y * 512 + z;
    assert(u as int == p * 4096);
    assert(p / 0x4_0000 == x && p / 512 % 512 == y && p % 512 == z) by (nonlinear_arith)
        requires
            p == x * 0x4_0000 + y * 512 + z,
            0 <= y < 512,
            0 <= z < 512,
    ;
}

proof fn lemma_kernel_leaf_not_user(u: u64)
    requires
        u < VA_END,
        u % PAGE_SIZE == 0,
    ensures
        !pt::user(kernel_leaf(u)),
{
    assert((PTE_RWX | PTE_VAD) & PTE_U == 0 && ((PTE_R | PTE_W) | PTE_VAD) & PTE_U == 0 && 0u64 & PTE_U
        == 0) by (bit_vector);
    pt::lemma_pte_bits(u, PTE_RWX | PTE_VAD);
    pt::lemma_pte_bits(u, (PTE_R | PTE_W) | PTE_VAD);
}

/// A zeroed frame as an empty root.
proof fn lemma_zero_root(m: MemV, cg: usize)
    requires
        m.wf(),
        m.fa.can_alloc(cg),
    ensures
        m.grab(cg).wf(),
        pt::tables_wf(m.grab(cg), m.fa.next_frame()),
        forall|u: u64| #[trigger] pt::leaf_at(m.grab(cg), m.fa.next_frame(), u) == 0,
        forall|x: int| pt::ix(x) ==> !(#[trigger] pt::has1(m.grab(cg), m.fa.next_frame(), x)),
        forall|t: u64| #[trigger] pt::is_table(m.grab(cg), m.fa.next_frame(), t) ==> t == m.fa.next_frame(),
        keeps_live(m, m.grab(cg)),
        m.free(m.fa.next_frame()),
{
    let r = m.fa.next_frame();
    let n = m.grab(cg);
    frame::law_alloc(m, cg);
    pt::lemma_flag_consts();
    assert forall|t: u64| frame::in_ram(t) && !m.free(t) implies #[trigger] n.ram[frame::fi(t)]
        == m.ram[frame::fi(t)] && !n.free(t) by {
        pt::lemma_fi_inj(t, r);
    }
    assert forall|x: int| pt::ix(x) implies !(#[trigger] pt::has1(n, r, x)) by {
        assert(pt::rd(n, r, x) == 0);
    }
    assert forall|u: u64| #[trigger] pt::leaf_at(n, r, u) == 0 by {
        pt::lemma_vpn_bound(u, 2);
        assert(!pt::has1(n, r, pt::vpn_of(u, 2)));
    }
}

/// Growing a root made of free frames leaves the frames in use alone.
proof fn lemma_boot_live(m0: MemV, m1: MemV, m: MemV, root: u64)
    requires
        m0.wf(),
        m1.wf(),
        m.wf(),
        keeps_live(m0, m1),
        forall|t: u64| #[trigger] pt::is_table(m1, root, t) ==> t == root,
        m0.free(root),
        pt::only_grows(m1, m, root),
    ensures
        keeps_live(m0, m),
{
    assert forall|t: u64| frame::in_ram(t) && !m0.free(t) implies #[trigger] m.ram[frame::fi(t)]
        == m0.ram[frame::fi(t)] && !m.free(t) by {
        assert(m1.ram[frame::fi(t)] == m0.ram[frame::fi(t)]);
        assert(!pt::is_table(m1, root, t));
        assert(m.free(t) ==> m1.free(t));
    }
}

} // verus!
