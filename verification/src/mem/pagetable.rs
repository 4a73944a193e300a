//! Sv39 page tables in physical frames.
use crate::hw::sbi;
use crate::hw::sbi::SbiCall;
use crate::mem::frame;
use crate::mem::frame::{FrameV, Mem, MemV, MAX_FRAMES, PAGE_SIZE, RAM_BASE, WORDS};
use crate::mem::space;
use vstd::prelude::*;

verus! {

pub const PTE_V: u64 = 1;

pub const PTE_R: u64 = 2;

pub const PTE_W: u64 = 4;

pub const PTE_X: u64 = 8;

pub const PTE_U: u64 = 16;

pub const PTE_G: u64 = 32;

pub const PTE_A: u64 = 64;

pub const PTE_D: u64 = 128;

/// Read, write and execute together: none of them set marks a table pointer.
pub const PTE_RWX: u64 = 14;

/// Accessed and dirty, preset in every leaf, with the valid bit.
pub const PTE_VAD: u64 = 193;

// ---- entries ----

pub open spec fn vpn_of(va: u64, level: int) -> int {
    ((va >> ((12 + 9 * level) as u64)) & 0x1ff) as int
}

pub open spec fn pte_new_of(pa: u64, flags: u64) -> u64 {
    ((pa >> 12) << 10) | (flags & 0x3ff)
}

pub open spec fn pte_pa_of(pte: u64) -> u64 {
    ((pte >> 10) & 0xfff_ffff_ffff) << 12
}

pub open spec fn valid(e: u64) -> bool {
    e & PTE_V != 0
}

pub open spec fn user(e: u64) -> bool {
    e & PTE_U != 0
}

pub open spec fn perm(e: u64) -> bool {
    e & PTE_RWX != 0
}

/// Index of `va` in the table of the given level.
pub fn vpn(va: u64, level: u64) -> (i: u64)
    requires
        level <= 2,
    ensures
        i == vpn_of(va, level as int),
        i < WORDS,
{
    let sh: u64 = 12 + 9 * level;
    let i = (va >> sh) & 0x1ff;
    assert((va >> sh) & 0x1ff < 512) by (bit_vector);
    i
}

/// Entry for the frame at `pa`.
pub fn pte_new(pa: u64, flags: u64) -> (e: u64)
    ensures
        e == pte_new_of(pa, flags),
{
    ((pa >> 12) << 10) | (flags & 0x3ff)
}

/// Frame address an entry holds.
pub fn pte_pa(pte: u64) -> (pa: u64)
    ensures
        pa == pte_pa_of(pte),
{
    ((pte >> 10) & 0xfff_ffff_ffff) << 12
}

pub fn pte_flags(pte: u64) -> (f: u64)
    ensures
        f == pte & 0xff,
{
    pte & 0xff
}

/// An entry gives back the frame address it was made of.
pub proof fn law_pte_address_roundtrip(pa: u64, flags: u64)
    requires
        pa % PAGE_SIZE == 0,
        pa < 0x100_0000_0000_0000,
    ensures
        pte_pa_of(pte_new_of(pa, flags)) == pa,
{
    assert(((((pa >> 12) << 10) | (flags & 0x3ff)) >> 10 & 0xfff_ffff_ffff) << 12 == pa)
        by (bit_vector)
        requires
            pa % 4096 == 0,
            pa < 0x100_0000_0000_0000,
    ;
}

/// An entry gives back every flag bit it was made of.
pub proof fn law_pte_flag_roundtrip(pa: u64, flags: u64, mask: u64)
    requires
        mask & 0x3ff == mask,
    ensures
        pte_new_of(pa, flags) & mask == flags & mask,
{
    assert((((pa >> 12) << 10) | (flags & 0x3ff)) & mask == flags & mask) by (bit_vector)
        requires
            mask & 0x3ff == mask,
    ;
}

/// The three indices and the page offset determine a 39-bit address.
pub proof fn law_va_split(va: u64)
    requires
        va < 0x80_0000_0000,
    ensures
        va == vpn_of(va, 2) * 0x4000_0000 + vpn_of(va, 1) * 0x20_0000 + vpn_of(va, 0) * 0x1000 + va
            % PAGE_SIZE,
{
    assert(va == (va >> 30 & 0x1ff) * 0x4000_0000 + (va >> 21 & 0x1ff) * 0x20_0000 + (va >> 12 & 0x1ff)
        * 0x1000 + va % 4096) by (bit_vector)
        requires
            va < 0x80_0000_0000,
    ;
}

pub proof fn lemma_vpn_bound(va: u64, level: int)
    requires
        0 <= level <= 2,
    ensures
        0 <= vpn_of(va, level) < WORDS,
{
    let sh = (12 + 9 * level) as u64;
    assert((va >> sh) & 0x1ff < 512) by (bit_vector);
}

/// What a new entry's bits say.
pub proof fn lemma_pte_bits(pa: u64, flags: u64)
    requires
        pa % PAGE_SIZE == 0,
        pa < 0x100_0000_0000_0000,
    ensures
        pte_pa_of(pte_new_of(pa, flags)) == pa,
        valid(pte_new_of(pa, flags)) == valid(flags),
        user(pte_new_of(pa, flags)) == user(flags),
        perm(pte_new_of(pa, flags)) == perm(flags),
{
    law_pte_address_roundtrip(pa, flags);
    assert(PTE_V & 0x3ff == PTE_V && PTE_U & 0x3ff == PTE_U && PTE_RWX & 0x3ff == PTE_RWX)
        by (bit_vector);
    law_pte_flag_roundtrip(pa, flags, PTE_V);
    law_pte_flag_roundtrip(pa, flags, PTE_U);
    law_pte_flag_roundtrip(pa, flags, PTE_RWX);
}

pub proof fn lemma_flag_consts()
    ensures
        valid(PTE_V),
        !perm(PTE_V),
        !user(PTE_V),
        forall|f: u64| #[trigger] valid(f | PTE_VAD),
        forall|f: u64| #[trigger] user(f | PTE_VAD) == user(f),
        forall|f: u64| #[trigger] perm(f | PTE_VAD) == perm(f),
        !valid(0),
{
    assert(PTE_V & PTE_V != 0 && PTE_V & PTE_RWX == 0 && PTE_V & PTE_U == 0) by (bit_vector);
    assert(forall|f: u64| #[trigger] (f | PTE_VAD) & PTE_V != 0) by (bit_vector);
    assert(forall|f: u64| #[trigger] ((f | PTE_VAD) & PTE_U) == f & PTE_U) by (bit_vector);
    assert(forall|f: u64| #[trigger] ((f | PTE_VAD) & PTE_RWX) == f & PTE_RWX) by (bit_vector);
    assert(0u64 & PTE_V == 0) by (bit_vector);
}

// ---- tables in memory ----

/// Entry `i` of the table at `t`.
pub open spec fn rd(m: MemV, t: u64, i: int) -> u64 {
    m.ram[frame::fi(t)][i]
}

/// The root has a table for index `a`.
pub open spec fn has1(m: MemV, root: u64, a: int) -> bool {
    valid(rd(m, root, a))
}

pub open spec fn l1_of(m: MemV, root: u64, a: int) -> u64 {
    pte_pa_of(rd(m, root, a))
}

/// There is a last-level table for `(a, b)`.
pub open spec fn has0(m: MemV, root: u64, a: int, b: int) -> bool {
    has1(m, root, a) && valid(rd(m, l1_of(m, root, a), b))
}

pub open spec fn l0_of(m: MemV, root: u64, a: int, b: int) -> u64 {
    pte_pa_of(rd(m, l1_of(m, root, a), b))
}

/// Last-level entry for `(a, b, c)`; 0 where there is no table.
pub open spec fn leaf(m: MemV, root: u64, a: int, b: int, c: int) -> u64 {
    if has0(m, root, a, b) {
        rd(m, l0_of(m, root, a, b), c)
    } else {
        0
    }
}

pub open spec fn ix(i: int) -> bool {
    0 <= i < WORDS
}

/// The tables under `root` are live frames, form a tree, and hold no leaf
/// above the last level.
pub open spec fn tables_wf(m: MemV, root: u64) -> bool {
    &&& m.live(root)
    &&& forall|a: int|
        ix(a) && #[trigger] has1(m, root, a) ==> {
            &&& !perm(rd(m, root, a))
            &&& m.live(l1_of(m, root, a))
            &&& l1_of(m, root, a) != root
        }
    &&& forall|a: int, b: int|
        ix(a) && ix(b) && #[trigger] has0(m, root, a, b) ==> {
            &&& !perm(rd(m, l1_of(m, root, a), b))
            &&& m.live(l0_of(m, root, a, b))
            &&& l0_of(m, root, a, b) != root
        }
    &&& forall|a: int, a2: int|
        ix(a) && ix(a2) && #[trigger] has1(m, root, a) && #[trigger] has1(m, root, a2) && a != a2
            ==> l1_of(m, root, a) != l1_of(m, root, a2)
    &&& forall|a: int, b: int, a2: int, b2: int|
        ix(a) && ix(b) && ix(a2) && ix(b2) && #[trigger] has0(m, root, a, b) && #[trigger] has0(
            m,
            root,
            a2,
            b2,
        ) && (a != a2 || b != b2) ==> l0_of(m, root, a, b) != l0_of(m, root, a2, b2)
    &&& forall|a: int, a2: int, b2: int|
        ix(a) && ix(a2) && ix(b2) && #[trigger] has1(m, root, a) && #[trigger] has0(m, root, a2, b2)
            ==> l1_of(m, root, a) != l0_of(m, root, a2, b2)
}

/// The frame at `t` is one of the tables under `root`.
pub open spec fn is_table(m: MemV, root: u64, t: u64) -> bool {
    ||| t == root
    ||| exists|a: int| ix(a) && #[trigger] has1(m, root, a) && l1_of(m, root, a) == t
    ||| exists|a: int, b: int| ix(a) && ix(b) && #[trigger] has0(m, root, a, b) && l0_of(m, root, a, b) == t
}

/// Between `m` and `n` nothing changed but tables of `root` and frames that
/// were free, and no frame became free.
pub open spec fn only_grows(m: MemV, n: MemV, root: u64) -> bool {
    &&& forall|t: u64|
        frame::in_ram(t) && !is_table(m, root, t) && !m.free(t) ==> #[trigger] n.ram[frame::fi(t)]
            == m.ram[frame::fi(t)]
    &&& forall|t: u64| #[trigger] n.free(t) ==> m.free(t)
    &&& forall|t: u64| #[trigger] is_table(n, root, t) ==> is_table(m, root, t) || m.free(t)
}

/// Every frame taken between `m` and `n` became a table of `root`, and no
/// table was lost.
pub open spec fn tight(m: MemV, n: MemV, root: u64) -> bool {
    &&& forall|t: u64| #![trigger n.free(t)] m.free(t) && !n.free(t) ==> is_table(n, root, t)
    &&& forall|t: u64| #[trigger] is_table(m, root, t) ==> is_table(n, root, t)
}

pub proof fn lemma_tight_trans(m: MemV, n: MemV, k: MemV, root: u64)
    requires
        tight(m, n, root),
        tight(n, k, root),
    ensures
        tight(m, k, root),
{
    assert forall|t: u64| #![trigger k.free(t)] m.free(t) && !k.free(t) implies is_table(k, root, t) by {
        assert(n.free(t) || !n.free(t));
        if !n.free(t) {
            assert(is_table(n, root, t));
        }
    }
    assert forall|t: u64| #[trigger] is_table(m, root, t) implies is_table(k, root, t) by {
        assert(is_table(n, root, t));
    }
}

pub proof fn lemma_grows_trans(m: MemV, n: MemV, k: MemV, root: u64)
    requires
        only_grows(m, n, root),
        only_grows(n, k, root),
    ensures
        only_grows(m, k, root),
{
    assert forall|t: u64| frame::in_ram(t) && !is_table(m, root, t) && !m.free(t) implies #[trigger] k.ram[frame::fi(
        t,
    )] == m.ram[frame::fi(t)] by {
        assert(n.ram[frame::fi(t)] == m.ram[frame::fi(t)]);
    }
    assert forall|t: u64| #[trigger] k.free(t) implies m.free(t) by {
        assert(n.free(t));
    }
    assert forall|t: u64| #[trigger] is_table(k, root, t) implies is_table(m, root, t) || m.free(t) by {
        assert(is_table(n, root, t) || n.free(t));
    }
}

pub proof fn lemma_grows_refl(m: MemV, root: u64)
    ensures
        only_grows(m, m, root),
{
}

/// Every last-level entry is as before, but for the one at `(a, b, c)`.
pub open spec fn leaves_but(m: MemV, n: MemV, root: u64, a: int, b: int, c: int, e: u64) -> bool {
    forall|x: int, y: int, z: int|
        ix(x) && ix(y) && ix(z) ==> #[trigger] leaf(n, root, x, y, z) == if x == a && y == b && z == c {
            e
        } else {
            leaf(m, root, x, y, z)
        }
}

pub open spec fn same_leaves(m: MemV, n: MemV, root: u64) -> bool {
    forall|x: int, y: int, z: int|
        ix(x) && ix(y) && ix(z) ==> #[trigger] leaf(n, root, x, y, z) == leaf(m, root, x, y, z)
}

/// The same tables exist.
pub open spec fn same_tables(m: MemV, n: MemV, root: u64) -> bool {
    &&& forall|x: int| ix(x) ==> #[trigger] has1(n, root, x) == has1(m, root, x)
    &&& forall|x: int, y: int| ix(x) && ix(y) ==> #[trigger] has0(n, root, x, y) == has0(m, root, x, y)
}

pub proof fn lemma_tables_trans(m: MemV, n: MemV, k: MemV, root: u64)
    requires
        same_tables(m, n, root),
        same_tables(n, k, root),
    ensures
        same_tables(m, k, root),
{
    assert forall|x: int| ix(x) implies #[trigger] has1(k, root, x) == has1(m, root, x) by {
        assert(has1(n, root, x) == has1(m, root, x));
    }
    assert forall|x: int, y: int| ix(x) && ix(y) implies #[trigger] has0(k, root, x, y) == has0(
        m,
        root,
        x,
        y,
    ) by {
        assert(has0(n, root, x, y) == has0(m, root, x, y));
    }
}

pub proof fn lemma_fi_inj(p: u64, q: u64)
    requires
        frame::in_ram(p),
        frame::in_ram(q),
    ensures
        (frame::fi(p) == frame::fi(q)) == (p == q),
        0 <= frame::fi(p) < MAX_FRAMES,
{
}

pub proof fn lemma_fi_inj_all()
    ensures
        forall|p: u64, q: u64|
            frame::in_ram(p) && frame::in_ram(q) && p != q ==> #[trigger] frame::fi(p)
                != #[trigger] frame::fi(q),
        forall|p: u64| frame::in_ram(p) ==> 0 <= #[trigger] frame::fi(p) < MAX_FRAMES,
{
}

/// Tables that are still there are still tables.
proof fn lemma_tables_mono(m: MemV, n: MemV, root: u64)
    requires
        forall|a: int|
            ix(a) && #[trigger] has1(m, root, a) ==> has1(n, root, a) && l1_of(n, root, a) == l1_of(
                m,
                root,
                a,
            ),
        forall|a: int, b: int|
            ix(a) && ix(b) && #[trigger] has0(m, root, a, b) ==> has0(n, root, a, b) && l0_of(n, root, a, b)
                == l0_of(m, root, a, b),
    ensures
        forall|t: u64| #[trigger] is_table(m, root, t) ==> is_table(n, root, t),
{
    assert forall|t: u64| #[trigger] is_table(m, root, t) implies is_table(n, root, t) by {
        if t != root {
            if exists|a: int| ix(a) && #[trigger] has1(m, root, a) && l1_of(m, root, a) == t {
                let a = choose|a: int| ix(a) && #[trigger] has1(m, root, a) && l1_of(m, root, a) == t;
                assert(has1(n, root, a));
            } else {
                let (a, b) = choose|a: int, b: int|
                    ix(a) && ix(b) && #[trigger] has0(m, root, a, b) && l0_of(m, root, a, b) == t;
                assert(ix(a) && ix(b) && has0(m, root, a, b));
                assert(has0(n, root, a, b));
            }
        }
    }
}

/// A fresh zeroed table hung into the root at `a`.
#[verifier::spinoff_prover]
#[verifier::rlimit(40)]
pub proof fn lemma_add_l1(m: MemV, root: u64, a: int, cg: usize)
    requires
        m.wf(),
        tables_wf(m, root),
        ix(a),
        !has1(m, root, a),
        m.fa.can_alloc(cg),
    ensures
        ({
            let t = m.fa.next_frame();
            let n = m.grab(cg).store(root, a, pte_new_of(t, PTE_V));
            &&& n.wf()
            &&& tables_wf(n, root)
            &&& has1(n, root, a)
            &&& l1_of(n, root, a) == t
            &&& forall|b: int| ix(b) ==> !(#[trigger] has0(n, root, a, b))
            &&& same_leaves(m, n, root)
            &&& only_grows(m, n, root)
            &&& tight(m, n, root)
            &&& forall|x: int| ix(x) && x != a ==> #[trigger] has1(n, root, x) == has1(m, root, x)
            &&& forall|x: int, b: int|
                ix(x) && ix(b) && x != a ==> #[trigger] has0(n, root, x, b) == has0(m, root, x, b)
        }),
{
    let t = m.fa.next_frame();
    let g = m.grab(cg);
    let n = g.store(root, a, pte_new_of(t, PTE_V));
    frame::law_alloc(m, cg);
    lemma_pte_bits(t, PTE_V);
    lemma_flag_consts();
    lemma_fi_inj_all();
    assert forall|x: int| ix(x) implies #[trigger] rd(n, root, x) == if x == a {
        pte_new_of(t, PTE_V)
    } else {
        rd(m, root, x)
    } by {}
    assert forall|b: int| ix(b) implies rd(n, t, b) == 0 by {}
    assert forall|x: int| ix(x) && x != a && has1(m, root, x) implies n.ram[frame::fi(
        l1_of(m, root, x),
    )] == m.ram[frame::fi(l1_of(m, root, x))] by {}
    assert forall|x: int, b: int| ix(x) && ix(b) && has0(m, root, x, b) implies n.ram[frame::fi(
        l0_of(m, root, x, b),
    )] == m.ram[frame::fi(l0_of(m, root, x, b))] by {}
    assert forall|x: int, b: int| ix(x) && ix(b) implies #[trigger] has0(n, root, x, b) == has0(
        m,
        root,
        x,
        b,
    ) by {}
    assert(n.wf()) by {
        assert forall|i: int| 0 <= i < n.fa.recycled.len() implies n.ram[frame::fi(
            #[trigger] n.fa.recycled[i],
        )] == frame::zero_frame() by {
            assert(g.fa.recycled.contains(n.fa.recycled[i]));
            assert(g.free(n.fa.recycled[i]));
            assert(frame::in_ram(n.fa.recycled[i]));
        }
    }
    assert forall|x: int| ix(x) && #[trigger] has1(n, root, x) implies if x == a {
        l1_of(n, root, x) == t
    } else {
        has1(m, root, x) && l1_of(n, root, x) == l1_of(m, root, x)
    } by {}
    assert forall|x: int, b: int| ix(x) && ix(b) && #[trigger] has0(n, root, x, b) implies l0_of(
        n,
        root,
        x,
        b,
    ) == l0_of(m, root, x, b) && x != a by {}
    lemma_tables_mono(m, n, root);
    assert(is_table(n, root, t)) by {
        assert(has1(n, root, a));
    }
}

/// A fresh zeroed table hung below `(a, b)`.
#[verifier::spinoff_prover]
#[verifier::rlimit(40)]
pub proof fn lemma_add_l0(m: MemV, root: u64, a: int, b: int, cg: usize)
    requires
        m.wf(),
        tables_wf(m, root),
        ix(a),
        ix(b),
        has1(m, root, a),
        !has0(m, root, a, b),
        m.fa.can_alloc(cg),
    ensures
        ({
            let t = m.fa.next_frame();
            let n = m.grab(cg).store(l1_of(m, root, a), b, pte_new_of(t, PTE_V));
            &&& n.wf()
            &&& tables_wf(n, root)
            &&& has0(n, root, a, b)
            &&& l0_of(n, root, a, b) == t
            &&& same_leaves(m, n, root)
            &&& only_grows(m, n, root)
            &&& tight(m, n, root)
            &&& forall|x: int| ix(x) ==> #[trigger] has1(n, root, x) == has1(m, root, x)
            &&& forall|x: int, y: int|
                ix(x) && ix(y) && (x != a || y != b) ==> #[trigger] has0(n, root, x, y) == has0(
                    m,
                    root,
                    x,
                    y,
                )
        }),
{
    let t = m.fa.next_frame();
    let g = m.grab(cg);
    let l1 = l1_of(m, root, a);
    let n = g.store(l1, b, pte_new_of(t, PTE_V));
    frame::law_alloc(m, cg);
    lemma_pte_bits(t, PTE_V);
    lemma_flag_consts();
    lemma_fi_inj_all();
    assert(n.ram[frame::fi(root)] == m.ram[frame::fi(root)]);
    assert forall|x: int| ix(x) implies #[trigger] rd(n, l1, x) == if x == b {
        pte_new_of(t, PTE_V)
    } else {
        rd(m, l1, x)
    } by {}
    assert forall|x: int| ix(x) && x != a && has1(m, root, x) implies n.ram[frame::fi(
        l1_of(m, root, x),
    )] == m.ram[frame::fi(l1_of(m, root, x))] by {}
    assert forall|x: int, y: int| ix(x) && ix(y) && has0(m, root, x, y) implies n.ram[frame::fi(
        l0_of(m, root, x, y),
    )] == m.ram[frame::fi(l0_of(m, root, x, y))] by {}
    assert forall|x: int, y: int| ix(x) && ix(y) implies #[trigger] has0(n, root, x, y) == (has0(
        m,
        root,
        x,
        y,
    ) || (x == a && y == b)) by {}
    assert forall|z: int| ix(z) implies rd(n, t, z) == 0 by {}
    assert(n.wf()) by {
        assert forall|i: int| 0 <= i < n.fa.recycled.len() implies n.ram[frame::fi(
            #[trigger] n.fa.recycled[i],
        )] == frame::zero_frame() by {
            assert(g.fa.recycled.contains(n.fa.recycled[i]));
            assert(g.free(n.fa.recycled[i]));
            assert(frame::in_ram(n.fa.recycled[i]));
        }
    }
    assert forall|x: int, y: int| ix(x) && ix(y) && #[trigger] has0(m, root, x, y) implies has0(n, root, x, y)
        && l0_of(n, root, x, y) == l0_of(m, root, x, y) by {}
    assert forall|p: u64| m.live(p) implies #[trigger] n.live(p) by {
        assert(g.free(p) ==> m.free(p));
    }
    assert forall|x: int| ix(x) && #[trigger] has1(n, root, x) implies n.live(l1_of(n, root, x)) by {
        assert(has1(m, root, x) && l1_of(n, root, x) == l1_of(m, root, x));
        assert(m.live(l1_of(m, root, x)));
    }
    assert(n.live(t));
    assert forall|x: int, y: int| ix(x) && ix(y) && #[trigger] has0(n, root, x, y) implies n.live(
        l0_of(n, root, x, y),
    ) && l0_of(n, root, x, y) != root by {
        if has0(m, root, x, y) {
            assert(m.live(l0_of(m, root, x, y)));
        }
    }
    assert forall|x: int| ix(x) && #[trigger] has1(n, root, x) implies !perm(rd(n, root, x)) && l1_of(n, root, x)
        != root by {}
    assert forall|x: int, y: int| ix(x) && ix(y) && #[trigger] has0(n, root, x, y) implies !perm(
        rd(n, l1_of(n, root, x), y),
    ) by {}
    assert forall|x: int, x2: int|
        ix(x) && ix(x2) && #[trigger] has1(n, root, x) && #[trigger] has1(n, root, x2) && x != x2 implies l1_of(
        n,
        root,
        x,
    ) != l1_of(n, root, x2) by {}
    assert forall|x: int, y: int, x2: int, y2: int|
        ix(x) && ix(y) && ix(x2) && ix(y2) && #[trigger] has0(n, root, x, y) && #[trigger] has0(n, root, x2, y2)
            && (x != x2 || y != y2) implies l0_of(n, root, x, y) != l0_of(n, root, x2, y2) by {}
    assert forall|x: int, x2: int, y2: int|
        ix(x) && ix(x2) && ix(y2) && #[trigger] has1(n, root, x) && #[trigger] has0(n, root, x2, y2) implies l1_of(
        n,
        root,
        x,
    ) != l0_of(n, root, x2, y2) by {}
    assert(tables_wf(n, root));
    lemma_tables_mono(m, n, root);
    assert(is_table(n, root, t)) by {
        assert(has0(n, root, a, b));
    }
}

/// A last-level entry written.
#[verifier::spinoff_prover]
#[verifier::rlimit(40)]
pub proof fn lemma_set_leaf(m: MemV, root: u64, a: int, b: int, c: int, e: u64)
    requires
        m.wf(),
        tables_wf(m, root),
        ix(a),
        ix(b),
        ix(c),
        has0(m, root, a, b),
    ensures
        ({
            let n = m.store(l0_of(m, root, a, b), c, e);
            &&& n.wf()
            &&& tables_wf(n, root)
            &&& leaves_but(m, n, root, a, b, c, e)
            &&& only_grows(m, n, root)
            &&& tight(m, n, root)
            &&& forall|x: int| ix(x) ==> #[trigger] has1(n, root, x) == has1(m, root, x)
            &&& forall|x: int, y: int|
                ix(x) && ix(y) ==> #[trigger] has0(n, root, x, y) == has0(m, root, x, y)
        }),
{
    let t = l0_of(m, root, a, b);
    let n = m.store(t, c, e);
    lemma_fi_inj_all();
    assert(n.ram[frame::fi(root)] == m.ram[frame::fi(root)]);
    assert forall|x: int| ix(x) && has1(m, root, x) implies n.ram[frame::fi(l1_of(m, root, x))]
        == m.ram[frame::fi(l1_of(m, root, x))] by {}
    assert forall|x: int, y: int| ix(x) && ix(y) implies #[trigger] has0(n, root, x, y) == has0(
        m,
        root,
        x,
        y,
    ) by {}
    assert(n.wf()) by {
        assert forall|i: int| 0 <= i < n.fa.recycled.len() implies n.ram[frame::fi(
            #[trigger] n.fa.recycled[i],
        )] == frame::zero_frame() by {
            assert(m.fa.recycled.contains(n.fa.recycled[i]));
            assert(m.free(n.fa.recycled[i]));
            assert(frame::in_ram(n.fa.recycled[i]));
        }
    }
    assert forall|x: int, y: int| ix(x) && ix(y) && #[trigger] has0(m, root, x, y) implies has0(n, root, x, y)
        && l0_of(n, root, x, y) == l0_of(m, root, x, y) by {}
    lemma_tables_mono(m, n, root);
}

// ---- executable walks ----

pub fn rd_word(m: &Mem, t: u64, i: u64) -> (e: u64)
    requires
        m@.wf(),
        frame::in_ram(t),
        i < WORDS,
    ensures
        e == rd(m@, t, i as int),
{
    let f: usize = ((t - RAM_BASE) / PAGE_SIZE) as usize;
    assert(m@.ram[f as int] == m.ram@[f as int]@);
    m.ram[f][i as usize]
}

pub fn wr_word(m: &mut Mem, t: u64, i: u64, v: u64)
    requires
        old(m)@.wf(),
        frame::in_ram(t),
        i < WORDS,
    ensures
        final(m)@ == old(m)@.store(t, i as int, v),
{
    let f: usize = ((t - RAM_BASE) / PAGE_SIZE) as usize;
    assert(m@.ram[f as int] == m.ram@[f as int]@);
    m.ram[f][i as usize] = v;
    assert(m@ =~= old(m)@.store(t, i as int, v));
}

/// Tables that mapping `va` has to add.
pub open spec fn tables_needed(m: MemV, root: u64, va: u64) -> nat {
    if has0(m, root, vpn_of(va, 2), vpn_of(va, 1)) {
        0
    } else if has1(m, root, vpn_of(va, 2)) {
        1
    } else {
        2
    }
}

pub open spec fn min_nat(a: nat, b: nat) -> nat {
    if a <= b {
        a
    } else {
        b
    }
}

/// `(x, y)` has a last-level table after mapping `va` if it had one before or
/// `va` goes through it.
pub open spec fn tables_after(m: MemV, n: MemV, root: u64, va: u64) -> bool {
    &&& forall|x: int|
        ix(x) ==> #[trigger] has1(n, root, x) == (has1(m, root, x) || x == vpn_of(va, 2))
    &&& forall|x: int, y: int|
        ix(x) && ix(y) ==> #[trigger] has0(n, root, x, y) == (has0(m, root, x, y) || (x == vpn_of(
            va,
            2,
        ) && y == vpn_of(va, 1)))
}

/// Last-level entry for `va`.
pub open spec fn leaf_at(m: MemV, root: u64, va: u64) -> u64 {
    leaf(m, root, vpn_of(va, 2), vpn_of(va, 1), vpn_of(va, 0))
}

/// Maps the page of `va` to the frame at `pa`. Missing tables are allocated
/// and charged to `cg`; false when one cannot be had, and then no mapping
/// changes.
pub fn map_one(m: &mut Mem, root: u64, va: u64, pa: u64, flags: u64, cg: usize) -> (ok: bool)
    requires
        old(m)@.wf(),
        tables_wf(old(m)@, root),
    ensures
        final(m)@.wf(),
        tables_wf(final(m)@, root),
        ok == (tables_needed(old(m)@, root, va) <= old(m)@.fa.room(cg)),
        final(m)@.fa == old(m)@.fa.grabs(
            cg,
            min_nat(tables_needed(old(m)@, root, va), old(m)@.fa.room(cg)),
        ),
        ok ==> leaves_but(
            old(m)@,
            final(m)@,
            root,
            vpn_of(va, 2),
            vpn_of(va, 1),
            vpn_of(va, 0),
            pte_new_of(pa, flags | PTE_VAD),
        ),
        ok ==> tables_after(old(m)@, final(m)@, root, va),
        !ok ==> same_leaves(old(m)@, final(m)@, root),
        only_grows(old(m)@, final(m)@, root),
        tight(old(m)@, final(m)@, root),
{
    let a = vpn(va, 2);
    let b = vpn(va, 1);
    let c = vpn(va, 0);
    let ghost m0 = m@;
    proof {
        reveal_with_fuel(FrameV::grabs, 3);
        lemma_flag_consts();
        lemma_grows_refl(m0, root);
        frame::lemma_room(m0, cg);
        assert(has0(m0, root, a as int, b as int) ==> has1(m0, root, a as int));
    }
    let e2 = rd_word(m, root, a);
    let l1: u64 = if e2 & PTE_V == 0 {
        match frame::alloc_frame_cg(m, cg) {
            Some(t) => {
                wr_word(m, root, a, pte_new(t, PTE_V));
                proof {
                    lemma_add_l1(m0, root, a as int, cg);
                }
                t
            },
            None => {
                return false;
            },
        }
    } else {
        pte_pa(e2)
    };
    let ghost m1 = m@;
    proof {
        frame::lemma_room(m1, cg);
        assert(has1(m1, root, a as int) && l1 == l1_of(m1, root, a as int));
    }
    let e1 = rd_word(m, l1, b);
    let l0: u64 = if e1 & PTE_V == 0 {
        match frame::alloc_frame_cg(m, cg) {
            Some(t) => {
                wr_word(m, l1, b, pte_new(t, PTE_V));
                proof {
                    lemma_add_l0(m1, root, a as int, b as int, cg);
                    lemma_grows_trans(m0, m1, m@, root);
                    lemma_tight_trans(m0, m1, m@, root);
                }
                t
            },
            None => {
                return false;
            },
        }
    } else {
        pte_pa(e1)
    };
    let ghost m2 = m@;
    assert(has0(m2, root, a as int, b as int) && l0 == l0_of(m2, root, a as int, b as int));
    wr_word(m, l0, c, pte_new(pa, flags | PTE_VAD));
    proof {
        lemma_set_leaf(m2, root, a as int, b as int, c as int, pte_new_of(pa, flags | PTE_VAD));
        lemma_grows_trans(m0, m2, m@, root);
        lemma_tight_trans(m0, m2, m@, root);
    }
    true
}

/// Physical address of `va`, if its page is mapped with some permission.
pub open spec fn translation(m: MemV, root: u64, va: u64) -> Option<u64> {
    let e = leaf_at(m, root, va);
    if valid(e) && perm(e) {
        Some((pte_pa_of(e) + va % PAGE_SIZE) as u64)
    } else {
        None
    }
}

pub fn translate(m: &Mem, root: u64, va: u64) -> (r: Option<u64>)
    requires
        m@.wf(),
        tables_wf(m@, root),
    ensures
        r == translation(m@, root, va),
{
    let a = vpn(va, 2);
    let b = vpn(va, 1);
    let c = vpn(va, 0);
    proof {
        lemma_flag_consts();
    }
    let e2 = rd_word(m, root, a);
    if e2 & PTE_V == 0 {
        return None;
    }
    assert(has1(m@, root, a as int));
    let e1 = rd_word(m, pte_pa(e2), b);
    if e1 & PTE_V == 0 {
        return None;
    }
    assert(has0(m@, root, a as int, b as int));
    let e0 = rd_word(m, pte_pa(e1), c);
    if e0 & PTE_V == 0 || e0 & PTE_RWX == 0 {
        return None;
    }
    let base = pte_pa(e0);
    assert(base <= 0xff_ffff_ffff_f000) by (bit_vector)
        requires
            base == ((e0 >> 10) & 0xfff_ffff_ffff) << 12,
    ;
    Some(base + va % PAGE_SIZE)
}

/// Maps `len` bytes page by page, `va` to `pa` on. False when a table cannot
/// be had; pages before it stay mapped.
pub fn map(m: &mut Mem, root: u64, va: u64, pa: u64, len: u64, flags: u64, cg: usize) -> (ok: bool)
    requires
        old(m)@.wf(),
        tables_wf(old(m)@, root),
        va + len + PAGE_SIZE <= u64::MAX,
        pa + len + PAGE_SIZE <= u64::MAX,
    ensures
        final(m)@.wf(),
        tables_wf(final(m)@, root),
        only_grows(old(m)@, final(m)@, root),
        ok == (range_tables(old(m)@, root, va, pages(len)) <= old(m)@.fa.room(cg)),
        ok ==> final(m)@.fa.room(cg) == old(m)@.fa.room(cg) - range_tables(
            old(m)@,
            root,
            va,
            pages(len),
        ),
        ok ==> tables_seen(old(m)@, final(m)@, root, va, pages(len)),
        ok ==> forall|x: int, y: int, z: int|
            ix(x) && ix(y) && ix(z) ==> #[trigger] leaf(final(m)@, root, x, y, z) == range_leaf(
                old(m)@,
                root,
                va,
                pa,
                flags,
                pages(len),
                x,
                y,
                z,
            ),
{
    let ghost m0 = m@;
    let mut off: u64 = 0;
    let ghost mut i: nat = 0;
    proof {
        lemma_grows_refl(m0, root);
        lemma_seen_none(m0, root, va);
    }
    while off < len
        invariant
            m0 == old(m)@,
            m@.wf(),
            tables_wf(m@, root),
            only_grows(m0, m@, root),
            off == i * PAGE_SIZE,
            i <= pages(len),
            va + len + PAGE_SIZE <= u64::MAX,
            pa + len + PAGE_SIZE <= u64::MAX,
            off < len + PAGE_SIZE,
            range_tables(m0, root, va, i) <= m0.fa.room(cg),
            m@.fa.room(cg) == m0.fa.room(cg) - range_tables(m0, root, va, i),
            tables_seen(m0, m@, root, va, i),
            forall|x: int, y: int, z: int|
                ix(x) && ix(y) && ix(z) ==> #[trigger] leaf(m@, root, x, y, z) == range_leaf(
                    m0,
                    root,
                    va,
                    pa,
                    flags,
                    i,
                    x,
                    y,
                    z,
                ),
        decreases len + PAGE_SIZE - off,
    {
        let ghost m1 = m@;
        let ok = map_one(m, root, va + off, pa + off, flags, cg);
        proof {
            lemma_range_step(m0, m1, root, va, i);
            lemma_range_mono(m0, root, va, i + 1, pages(len));
            if ok {
                lemma_grabs_room(m1, cg, tables_needed(m1, root, (va + off) as u64));
            }
        }
        if !ok {
            proof {
                lemma_grows_trans(m0, m1, m@, root);
            }
            return false;
        }
        proof {
            lemma_grows_trans(m0, m1, m@, root);
            lemma_seen_step(m0, m1, m@, root, va, i);
            i = i + 1;
        }
        off = off + PAGE_SIZE;
    }
    assert(i == pages(len));
    true
}

/// Pages that `len` bytes from a page boundary touch.
pub open spec fn pages(len: u64) -> nat {
    ((len + PAGE_SIZE - 1) / (PAGE_SIZE as int)) as nat
}

/// Address of page `i` of the range at `va`.
pub open spec fn page_va(va: u64, i: nat) -> u64 {
    (va + i * PAGE_SIZE) as u64
}

/// The range's pages below `n` go through table `(x, y)`.
pub open spec fn touches0(va: u64, n: nat, x: int, y: int) -> bool {
    exists|i: nat| i < n && vpn_of(#[trigger] page_va(va, i), 2) == x && vpn_of(page_va(va, i), 1) == y
}

pub open spec fn touches1(va: u64, n: nat, x: int) -> bool {
    exists|i: nat| i < n && vpn_of(#[trigger] page_va(va, i), 2) == x
}

/// Tables that mapping the range's first `n` pages adds: for each page, those
/// that were missing and that no page before it went through.
pub open spec fn range_tables(m: MemV, root: u64, va: u64, n: nat) -> nat
    decreases n,
{
    if n == 0 {
        0
    } else {
        let i = (n - 1) as nat;
        let x = vpn_of(page_va(va, i), 2);
        let y = vpn_of(page_va(va, i), 1);
        range_tables(m, root, va, i) + (if has0(m, root, x, y) || touches0(va, i, x, y) {
            0nat
        } else if has1(m, root, x) || touches1(va, i, x) {
            1
        } else {
            2
        })
    }
}

/// Last-level entry after the range's first `n` pages are mapped: the last
/// page with these indices decides.
pub open spec fn range_leaf(
    m: MemV,
    root: u64,
    va: u64,
    pa: u64,
    flags: u64,
    n: nat,
    x: int,
    y: int,
    z: int,
) -> u64
    decreases n,
{
    if n == 0 {
        leaf(m, root, x, y, z)
    } else {
        let i = (n - 1) as nat;
        let v = page_va(va, i);
        if x == vpn_of(v, 2) && y == vpn_of(v, 1) && z == vpn_of(v, 0) {
            pte_new_of(page_va(pa, i), flags | PTE_VAD)
        } else {
            range_leaf(m, root, va, pa, flags, i, x, y, z)
        }
    }
}

/// Which tables exist after the range's first `n` pages went in.
pub open spec fn tables_seen(m: MemV, n: MemV, root: u64, va: u64, k: nat) -> bool {
    &&& forall|x: int|
        ix(x) ==> #[trigger] has1(n, root, x) == (has1(m, root, x) || touches1(va, k, x))
    &&& forall|x: int, y: int|
        ix(x) && ix(y) ==> #[trigger] has0(n, root, x, y) == (has0(m, root, x, y) || touches0(
            va,
            k,
            x,
            y,
        ))
}

proof fn lemma_seen_none(m: MemV, root: u64, va: u64)
    ensures
        tables_seen(m, m, root, va, 0),
{
}

pub proof fn lemma_seen_same(m: MemV, n: MemV, k: MemV, root: u64, va: u64, i: nat)
    requires
        tables_seen(m, n, root, va, i),
        same_tables(n, k, root),
    ensures
        tables_seen(m, k, root, va, i),
{
    assert forall|x: int| ix(x) implies #[trigger] has1(k, root, x) == (has1(m, root, x) || touches1(va, i, x)) by {
        assert(has1(n, root, x) == (has1(m, root, x) || touches1(va, i, x)));
    }
    assert forall|x: int, y: int| ix(x) && ix(y) implies #[trigger] has0(k, root, x, y) == (has0(
        m,
        root,
        x,
        y,
    ) || touches0(va, i, x, y)) by {
        assert(has0(n, root, x, y) == (has0(m, root, x, y) || touches0(va, i, x, y)));
    }
}

pub proof fn lemma_range_step(m0: MemV, m1: MemV, root: u64, va: u64, i: nat)
    requires
        tables_seen(m0, m1, root, va, i),
    ensures
        range_tables(m0, root, va, i + 1) == range_tables(m0, root, va, i) + tables_needed(
            m1,
            root,
            page_va(va, i),
        ),
{
    lemma_vpn_bound(page_va(va, i), 2);
    lemma_vpn_bound(page_va(va, i), 1);
}

proof fn lemma_range_mono(m: MemV, root: u64, va: u64, i: nat, n: nat)
    requires
        i <= n,
    ensures
        range_tables(m, root, va, i) <= range_tables(m, root, va, n),
    decreases n,
{
    if i < n {
        lemma_range_mono(m, root, va, i, (n - 1) as nat);
    }
}

pub proof fn lemma_seen_step(m0: MemV, m1: MemV, m2: MemV, root: u64, va: u64, i: nat)
    requires
        tables_seen(m0, m1, root, va, i),
        tables_after(m1, m2, root, page_va(va, i)),
    ensures
        tables_seen(m0, m2, root, va, i + 1),
{
    let v = page_va(va, i);
    assert forall|x: int| ix(x) implies #[trigger] has1(m2, root, x) == (has1(m0, root, x) || touches1(
        va,
        i + 1,
        x,
    )) by {
        if touches1(va, i + 1, x) {
            let j = choose|j: nat| j < i + 1 && vpn_of(#[trigger] page_va(va, j), 2) == x;
            if j < i {
                assert(touches1(va, i, x));
            }
        }
        if touches1(va, i, x) {
            let j = choose|j: nat| j < i && vpn_of(#[trigger] page_va(va, j), 2) == x;
            assert(j < i + 1);
            assert(touches1(va, i + 1, x));
        }
    }
    assert forall|x: int, y: int| ix(x) && ix(y) implies #[trigger] has0(m2, root, x, y) == (has0(
        m0,
        root,
        x,
        y,
    ) || touches0(va, i + 1, x, y)) by {
        if touches0(va, i + 1, x, y) {
            let j = choose|j: nat|
                j < i + 1 && vpn_of(#[trigger] page_va(va, j), 2) == x && vpn_of(page_va(va, j), 1) == y;
            if j < i {
                assert(touches0(va, i, x, y));
            }
        }
        if touches0(va, i, x, y) {
            let j = choose|j: nat|
                j < i && vpn_of(#[trigger] page_va(va, j), 2) == x && vpn_of(page_va(va, j), 1) == y;
            assert(j < i + 1);
            assert(touches0(va, i + 1, x, y));
        }
    }
}

/// Handing out `k` frames within the room leaves that much less of it.
pub proof fn lemma_grabs_room(m: MemV, cg: usize, k: nat)
    requires
        m.wf(),
        k <= m.fa.room(cg),
    ensures
        m.fa.grabs(cg, k).room(cg) == m.fa.room(cg) - k,
        grabs_wf(m, cg, k),
    decreases k,
{
    if k > 0 {
        lemma_grabs_room(m, cg, (k - 1) as nat);
        let n = MemV {
            ram: Seq::new(MAX_FRAMES as nat, |f: int| frame::zero_frame()),
            fa: m.fa.grabs(cg, (k - 1) as nat),
        };
        frame::lemma_room(n, cg);
        frame::law_alloc(n, cg);
    }
}

/// The allocator stays well formed while `k` frames are handed out.
pub open spec fn grabs_wf(m: MemV, cg: usize, k: nat) -> bool {
    m.fa.grabs(cg, k).wf()
}

// ---- changing mapped pages ----

/// The entry maps a page the user owns.
pub open spec fn owned_leaf(e: u64) -> bool {
    valid(e) && user(e) && perm(e)
}

/// Last-level table and entry for `va`, when the table exists.
fn walk_leaf(m: &Mem, root: u64, va: u64) -> (r: Option<(u64, u64)>)
    requires
        m@.wf(),
        tables_wf(m@, root),
    ensures
        match r {
            Some((t, e)) => {
                &&& has0(m@, root, vpn_of(va, 2), vpn_of(va, 1))
                &&& t == l0_of(m@, root, vpn_of(va, 2), vpn_of(va, 1))
                &&& e == leaf_at(m@, root, va)
                &&& frame::in_ram(t)
            },
            None => leaf_at(m@, root, va) == 0,
        },
{
    let a = vpn(va, 2);
    let b = vpn(va, 1);
    let c = vpn(va, 0);
    let e2 = rd_word(m, root, a);
    if e2 & PTE_V == 0 {
        return None;
    }
    assert(has1(m@, root, a as int));
    let e1 = rd_word(m, pte_pa(e2), b);
    if e1 & PTE_V == 0 {
        return None;
    }
    assert(has0(m@, root, a as int, b as int));
    let t = pte_pa(e1);
    Some((t, rd_word(m, t, c)))
}

/// Unmaps one user page and returns its frame address; kernel mappings and
/// holes are left alone.
pub fn unmap_page(m: &mut Mem, root: u64, va: u64) -> (r: Option<u64>)
    requires
        old(m)@.wf(),
        tables_wf(old(m)@, root),
    ensures
        final(m)@.wf(),
        final(m)@.fa == old(m)@.fa,
        tables_wf(final(m)@, root),
        only_grows(old(m)@, final(m)@, root),
        tight(old(m)@, final(m)@, root),
        owned_leaf(leaf_at(old(m)@, root, va)) ==> {
            &&& r == Some(pte_pa_of(leaf_at(old(m)@, root, va)))
            &&& leaves_but(
                old(m)@,
                final(m)@,
                root,
                vpn_of(va, 2),
                vpn_of(va, 1),
                vpn_of(va, 0),
                0,
            )
        },
        !owned_leaf(leaf_at(old(m)@, root, va)) ==> r is None && final(m)@ == old(m)@,
{
    proof {
        lemma_flag_consts();
        lemma_grows_refl(m@, root);
    }
    match walk_leaf(m, root, va) {
        Some((t, e)) => {
            if e & PTE_V == 0 || e & PTE_U == 0 || e & PTE_RWX == 0 {
                return None;
            }
            let c = vpn(va, 0);
            wr_word(m, t, c, 0);
            proof {
                lemma_vpn_bound(va, 2);
                lemma_vpn_bound(va, 1);
                lemma_set_leaf(old(m)@, root, vpn_of(va, 2), vpn_of(va, 1), vpn_of(va, 0), 0);
            }
            Some(pte_pa(e))
        },
        None => None,
    }
}

/// Start of the page holding `va`.
pub open spec fn page_down(va: u64) -> u64 {
    (va - va % PAGE_SIZE) as u64
}

/// Pages that `[va, va + len)` touches.
pub open spec fn span(va: u64, len: u64) -> nat {
    ((va + len + PAGE_SIZE - 1) / (PAGE_SIZE as int) - va / PAGE_SIZE) as nat
}

/// One of the `n` pages from `start` on has these indices.
pub open spec fn page_in(start: u64, n: nat, x: int, y: int, z: int) -> bool {
    exists|i: nat|
        i < n && vpn_of(#[trigger] page_va(start, i), 2) == x && vpn_of(page_va(start, i), 1) == y
            && vpn_of(page_va(start, i), 0) == z
}

/// Flag bits that `protect` may add.
pub const PROT_MASK: u64 = 30;

pub open spec fn protected(e: u64, flags: u64) -> u64 {
    if owned_leaf(e) {
        e | (flags & PROT_MASK)
    } else {
        e
    }
}

pub proof fn lemma_protect_idem(e: u64, flags: u64)
    ensures
        protected(protected(e, flags), flags) == protected(e, flags),
        owned_leaf(e) ==> owned_leaf(protected(e, flags)),
        owned_leaf(e) ==> pte_pa_of(protected(e, flags)) == pte_pa_of(e),
{
    let p = e | (flags & PROT_MASK);
    assert(p | (flags & PROT_MASK) == p && (e & PTE_V != 0 ==> p & PTE_V != 0) && (e & PTE_U != 0 ==> p
        & PTE_U != 0) && (e & PTE_RWX != 0 ==> p & PTE_RWX != 0) && (p >> 10) == (e >> 10))
        by (bit_vector)
        requires
            p == e | (flags & PROT_MASK),
    ;
}

/// Adds permission bits to every user page mapped in `[va, va + len)`.
pub fn protect(m: &mut Mem, root: u64, va: u64, len: u64, flags: u64)
    requires
        old(m)@.wf(),
        tables_wf(old(m)@, root),
        va + len + PAGE_SIZE <= u64::MAX,
    ensures
        final(m)@.wf(),
        final(m)@.fa == old(m)@.fa,
        tables_wf(final(m)@, root),
        only_grows(old(m)@, final(m)@, root),
        tight(old(m)@, final(m)@, root),
        same_tables(old(m)@, final(m)@, root),
        forall|x: int, y: int, z: int|
            ix(x) && ix(y) && ix(z) ==> #[trigger] leaf(final(m)@, root, x, y, z) == if page_in(
                page_down(va),
                span(va, len),
                x,
                y,
                z,
            ) {
                protected(leaf(old(m)@, root, x, y, z), flags)
            } else {
                leaf(old(m)@, root, x, y, z)
            },
{
    let start: u64 = va - va % PAGE_SIZE;
    let end: u64 = (va + len + (PAGE_SIZE - 1)) / PAGE_SIZE * PAGE_SIZE;
    let ghost m0 = m@;
    let mut cur: u64 = start;
    let ghost mut i: nat = 0;
    proof {
        lemma_grows_refl(m0, root);
        lemma_flag_consts();
    }
    while cur < end
        invariant
            m0 == old(m)@,
            m@.wf(),
            m@.fa == m0.fa,
            tables_wf(m@, root),
            only_grows(m0, m@, root),
            tight(m0, m@, root),
            same_tables(m0, m@, root),
            start == page_down(va),
            start % PAGE_SIZE == 0,
            end % PAGE_SIZE == 0,
            cur == start + i * PAGE_SIZE,
            va + len + PAGE_SIZE <= u64::MAX,
            end == (va + len + PAGE_SIZE - 1) / PAGE_SIZE as int * PAGE_SIZE,
            i <= span(va, len),
            forall|x: int, y: int, z: int|
                ix(x) && ix(y) && ix(z) ==> #[trigger] leaf(m@, root, x, y, z) == if page_in(
                    start,
                    i,
                    x,
                    y,
                    z,
                ) {
                    protected(leaf(m0, root, x, y, z), flags)
                } else {
                    leaf(m0, root, x, y, z)
                },
        decreases end + PAGE_SIZE - cur,
    {
        let ghost m1 = m@;
        let ghost x0 = vpn_of(cur, 2);
        let ghost y0 = vpn_of(cur, 1);
        let ghost z0 = vpn_of(cur, 0);
        proof {
            lemma_vpn_bound(cur, 2);
            lemma_vpn_bound(cur, 1);
            lemma_vpn_bound(cur, 0);
            lemma_flag_consts();
        }
        if let Some((t, e)) = walk_leaf(m, root, cur) {
            if e & PTE_V != 0 && e & PTE_U != 0 && e & PTE_RWX != 0 {
                let c = vpn(cur, 0);
                wr_word(m, t, c, e | (flags & PROT_MASK));
                proof {
                    lemma_set_leaf(m1, root, x0, y0, z0, e | (flags & PROT_MASK));
                    lemma_grows_trans(m0, m1, m@, root);
                    lemma_tight_trans(m0, m1, m@, root);
                    lemma_tables_trans(m0, m1, m@, root);
                }
            }
        }
        proof {
            assert(page_va(start, i) == cur);
            assert forall|x: int, y: int, z: int| ix(x) && ix(y) && ix(z) implies #[trigger] leaf(
                m@,
                root,
                x,
                y,
                z,
            ) == if page_in(start, i + 1, x, y, z) {
                protected(leaf(m0, root, x, y, z), flags)
            } else {
                leaf(m0, root, x, y, z)
            } by {
                lemma_page_in_step(start, i, x, y, z);
                lemma_protect_idem(leaf(m0, root, x, y, z), flags);
                assert(leaf(m1, root, x, y, z) == if page_in(start, i, x, y, z) {
                    protected(leaf(m0, root, x, y, z), flags)
                } else {
                    leaf(m0, root, x, y, z)
                });
            }
            i = i + 1;
        }
        cur = cur + PAGE_SIZE;
    }
    assert(i == span(va, len));
}

pub proof fn lemma_page_in_step(start: u64, i: nat, x: int, y: int, z: int)
    ensures
        page_in(start, i + 1, x, y, z) == (page_in(start, i, x, y, z) || (vpn_of(
            page_va(start, i),
            2,
        ) == x && vpn_of(page_va(start, i), 1) == y && vpn_of(page_va(start, i), 0) == z)),
{
    if page_in(start, i, x, y, z) {
        let j = choose|j: nat|
            j < i && vpn_of(#[trigger] page_va(start, j), 2) == x && vpn_of(page_va(start, j), 1) == y
                && vpn_of(page_va(start, j), 0) == z;
        assert(j < i + 1);
    }
    if page_in(start, i + 1, x, y, z) {
        let j = choose|j: nat|
            j < i + 1 && vpn_of(#[trigger] page_va(start, j), 2) == x && vpn_of(page_va(start, j), 1) == y
                && vpn_of(page_va(start, j), 0) == z;
        if j < i {
            assert(page_in(start, i, x, y, z));
        }
    }
}

// ---- what a hart is told ----

/// The register that makes a hart use a table: the mode in the top bits, and
/// the table's page number.
pub fn activate(root_pa: u64) -> (satp: u64)
    ensures
        satp == 0x8000_0000_0000_0000 + root_pa / PAGE_SIZE,
{
    0x8000_0000_0000_0000 + root_pa / PAGE_SIZE
}

/// All harts but one, as a mask.
pub open spec fn others(me: int) -> u64 {
    if me == 0 {
        0b1110
    } else if me == 1 {
        0b1101
    } else if me == 2 {
        0b1011
    } else {
        0b0111
    }
}

/// Has all other harts forget every translation.
pub fn remote_flush_all(me: usize) -> (r: SbiCall)
    ensures
        r == (SbiCall {
            eid: sbi::EID_RFENCE,
            fid: 1,
            a0: others((me % 4) as int),
            a1: 0,
            a2: 0,
            a3: 0,
        }),
{
    let mask: u64 = match me % 4 {
        0 => 0b1110,
        1 => 0b1101,
        2 => 0b1011,
        _ => 0b0111,
    };
    sbi::remote_sfence_vma(mask, 0, 0)
}

/// Translating after mapping gives what was mapped: every address of the page
/// leads to the same offset of the frame, and an address of any other page
/// leads where it led.
pub proof fn law_map_then_translate(m: MemV, n: MemV, root: u64, va: u64, pa: u64, flags: u64, w: u64)
    requires
        va < space::VA_END,
        w < space::VA_END,
        pa % PAGE_SIZE == 0,
        pa < 0x100_0000_0000_0000,
        perm(flags),
        leaves_but(m, n, root, vpn_of(va, 2), vpn_of(va, 1), vpn_of(va, 0), pte_new_of(pa, flags | PTE_VAD)),
    ensures
        w / PAGE_SIZE == va / PAGE_SIZE ==> translation(n, root, w) == Some((pa + w % PAGE_SIZE) as u64),
        w / PAGE_SIZE != va / PAGE_SIZE ==> translation(n, root, w) == translation(m, root, w),
{
    space::lemma_same_page(w, va);
    space::lemma_indices(w);
    lemma_pte_bits(pa, flags | PTE_VAD);
    let f = flags | PTE_VAD;
    assert(f & PTE_V != 0 && f & PTE_RWX != 0) by (bit_vector)
        requires
            f == flags | PTE_VAD,
            flags & PTE_RWX != 0,
    ;
}

/// A mapping that fails changes no translation.
pub proof fn law_failed_map_keeps(m: MemV, n: MemV, root: u64, w: u64)
    requires
        w < space::VA_END,
        same_leaves(m, n, root),
    ensures
        translation(n, root, w) == translation(m, root, w),
{
    space::lemma_indices(w);
}

} // verus!
