//! User address spaces: what the pages under a root hold, byte by byte.
use crate::mem::frame;
use crate::mem::frame::{Mem, MemV, MAX_FRAMES, PAGE_SIZE, RAM_BASE, WORDS};
use crate::mem::pagetable as pt;
use crate::mem::pagetable::{PTE_U, PTE_VAD};
use vstd::prelude::*;

verus! {

/// End of the 39-bit virtual address range.
pub const VA_END: u64 = 0x80_0000_0000;

// ---- bytes ----

/// Byte `k` of a word, lowest first.
pub open spec fn byte_of(w: u64, k: u64) -> u8 {
    ((w >> ((8 * k) as u64)) & 0xff) as u8
}

pub open spec fn word_with(w: u64, k: u64, v: u8) -> u64 {
    (w & !(0xffu64 << ((8 * k) as u64))) | ((v as u64) << ((8 * k) as u64))
}

/// The byte at physical address `pa`.
pub open spec fn byte_at(m: MemV, pa: u64) -> u8 {
    byte_of(m.ram[frame::fi(pa)][(pa % PAGE_SIZE / 8) as int], pa % 8)
}

/// The byte at `pa` set to `v`.
pub open spec fn poke(m: MemV, pa: u64, v: u8) -> MemV {
    let i = (pa % PAGE_SIZE / 8) as int;
    m.store(pa, i, word_with(m.ram[frame::fi(pa)][i], pa % 8, v))
}

proof fn lemma_word_with(w: u64, k: u64, v: u8, j: u64)
    requires
        k < 8,
        j < 8,
    ensures
        byte_of(word_with(w, k, v), j) == if j == k {
            v
        } else {
            byte_of(w, j)
        },
{
    let sk = (8 * k) as u64;
    let sj = (8 * j) as u64;
    assert(j == k ==> (((w & !(0xffu64 << sk)) | ((v as u64) << sk)) >> sj & 0xff) as u8 == v)
        by (bit_vector)
        requires
            k < 8,
            j < 8,
            sk == 8 * k,
            sj == 8 * j,
    ;
    assert(j != k ==> (((w & !(0xffu64 << sk)) | ((v as u64) << sk)) >> sj & 0xff) == (w >> sj & 0xff))
        by (bit_vector)
        requires
            k < 8,
            j < 8,
            sk == 8 * k,
            sj == 8 * j,
    ;
}

proof fn lemma_byte_of_zero(k: u64)
    requires
        k < 8,
    ensures
        byte_of(0, k) == 0,
{
    let s = (8 * k) as u64;
    assert((0u64 >> s & 0xff) as u8 == 0) by (bit_vector);
}

/// An address in RAM: its frame is.
pub open spec fn pa_ok(pa: u64) -> bool {
    frame::in_ram(pt::page_down(pa))
}

/// Writing one byte changes that byte and no other.
pub proof fn law_poke(m: MemV, pa: u64, v: u8, q: u64)
    requires
        m.wf(),
        pa_ok(pa),
        pa_ok(q),
    ensures
        byte_at(poke(m, pa, v), q) == if q == pa {
            v
        } else {
            byte_at(m, q)
        },
{
    lemma_fi_page(pa);
    lemma_fi_page(q);
    pt::lemma_fi_inj(pt::page_down(pa), pt::page_down(q));
    let i = (pa % PAGE_SIZE / 8) as int;
    let j = (q % PAGE_SIZE / 8) as int;
    lemma_word_with(m.ram[frame::fi(pa)][i], pa % 8, v, q % 8);
    if frame::fi(pa) == frame::fi(q) && i == j && pa % 8 == q % 8 {
        lemma_same_byte(pa, q);
    }
}

proof fn lemma_fi_page(pa: u64)
    requires
        pa_ok(pa),
    ensures
        frame::fi(pa) == frame::fi(pt::page_down(pa)),
        0 <= frame::fi(pa) < MAX_FRAMES,
{
}

/// An offset within a frame.
pub proof fn lemma_page_off(f: u64, off: u64)
    requires
        frame::in_ram(f),
        off < PAGE_SIZE,
    ensures
        pt::page_down((f + off) as u64) == f,
        (f + off) as u64 % PAGE_SIZE == off,
        (f + off) as u64 % 8 == off % 8,
        frame::fi((f + off) as u64) == frame::fi(f),
        pa_ok((f + off) as u64),
{
}

proof fn lemma_same_byte(p: u64, q: u64)
    requires
        pt::page_down(p) == pt::page_down(q),
        p % PAGE_SIZE / 8 == q % PAGE_SIZE / 8,
        p % 8 == q % 8,
    ensures
        p == q,
{
    lemma_low_bits(p);
    lemma_low_bits(q);
    let (a, b) = (p % PAGE_SIZE, q % PAGE_SIZE);
    assert(a == 8 * (a / 8) + a % 8 && b == 8 * (b / 8) + b % 8);
    assert(p == pt::page_down(p) + a && q == pt::page_down(q) + b);
}

proof fn lemma_low_bits(p: u64)
    ensures
        p % PAGE_SIZE % 8 == p % 8,
{
    assert(p % 4096 % 8 == p % 8) by (bit_vector);
}

fn poke_byte(m: &mut Mem, pa: u64, v: u8)
    requires
        old(m)@.wf(),
        pa_ok(pa),
    ensures
        final(m)@ == poke(old(m)@, pa, v),
{
    let f: usize = ((pa - RAM_BASE) / PAGE_SIZE) as usize;
    let i: usize = (pa % PAGE_SIZE / 8) as usize;
    assert(m@.ram[f as int] == m.ram@[f as int]@);
    let w = m.ram[f][i];
    let sh: u64 = 8 * (pa % 8);
    m.ram[f][i] = (w & !(0xffu64 << sh)) | ((v as u64) << sh);
    assert(m@ =~= poke(old(m)@, pa, v));
}

// ---- address spaces ----

/// The entry maps a page for the user.
pub open spec fn ul(e: u64) -> bool {
    pt::valid(e) && pt::user(e)
}

/// Frame of the user page at these indices.
pub open spec fn upage(m: MemV, root: u64, a: int, b: int, c: int) -> bool {
    pt::ix(a) && pt::ix(b) && pt::ix(c) && ul(pt::leaf(m, root, a, b, c))
}

pub open spec fn upa(m: MemV, root: u64, a: int, b: int, c: int) -> u64 {
    pt::pte_pa_of(pt::leaf(m, root, a, b, c))
}

/// User pages have some permission and are live frames, none of them a table,
/// no two the same.
pub open spec fn upages_wf(m: MemV, root: u64) -> bool {
    &&& forall|a: int, b: int, c: int| #[trigger]
        upage(m, root, a, b, c) ==> m.live(upa(m, root, a, b, c)) && !pt::is_table(
            m,
            root,
            upa(m, root, a, b, c),
        ) && pt::perm(pt::leaf(m, root, a, b, c))
    &&& forall|a: int, b: int, c: int, x: int, y: int, z: int| #[trigger]
        upage(m, root, a, b, c) && #[trigger] upage(m, root, x, y, z) && (a != x || b != y || c != z)
            ==> upa(m, root, a, b, c) != upa(m, root, x, y, z)
}

pub open spec fn space_wf(m: MemV, root: u64) -> bool {
    pt::tables_wf(m, root) && upages_wf(m, root)
}

/// The frame belongs to the space: a table, or a user page.
pub open spec fn owns(m: MemV, root: u64, t: u64) -> bool {
    ||| pt::is_table(m, root, t)
    ||| exists|a: int, b: int, c: int| #[trigger] upage(m, root, a, b, c) && upa(m, root, a, b, c) == t
}

/// Between `m` and `n` only frames of this space and free frames changed, no
/// frame became free, and every frame taken went to the space, which lost
/// none.
pub open spec fn space_only(m: MemV, n: MemV, root: u64) -> bool {
    &&& forall|t: u64|
        frame::in_ram(t) && !owns(m, root, t) && !m.free(t) ==> #[trigger] n.ram[frame::fi(t)]
            == m.ram[frame::fi(t)]
    &&& forall|t: u64| #[trigger] n.free(t) ==> m.free(t)
    &&& forall|t: u64| #[trigger] owns(n, root, t) ==> owns(m, root, t) || m.free(t)
    &&& forall|t: u64| #![trigger n.free(t)] m.free(t) && !n.free(t) ==> owns(n, root, t)
    &&& forall|t: u64| #[trigger] owns(m, root, t) ==> owns(n, root, t)
}

pub proof fn lemma_only_trans(m: MemV, n: MemV, k: MemV, root: u64)
    requires
        space_only(m, n, root),
        space_only(n, k, root),
    ensures
        space_only(m, k, root),
{
    assert forall|t: u64| frame::in_ram(t) && !owns(m, root, t) && !m.free(t) implies #[trigger] k.ram[frame::fi(
        t,
    )] == m.ram[frame::fi(t)] by {
        assert(n.ram[frame::fi(t)] == m.ram[frame::fi(t)]);
    }
    assert forall|t: u64| #[trigger] k.free(t) implies m.free(t) by {
        assert(n.free(t));
    }
    assert forall|t: u64| #[trigger] owns(k, root, t) implies owns(m, root, t) || m.free(t) by {
        assert(owns(n, root, t) || n.free(t));
    }
    assert forall|t: u64| #![trigger k.free(t)] m.free(t) && !k.free(t) implies owns(k, root, t) by {
        assert(n.free(t) || !n.free(t));
        if !n.free(t) {
            assert(owns(n, root, t));
        }
    }
    assert forall|t: u64| #[trigger] owns(m, root, t) implies owns(k, root, t) by {
        assert(owns(n, root, t));
    }
}

pub proof fn lemma_only_refl(m: MemV, root: u64)
    ensures
        space_only(m, m, root),
{
}

/// Frames of one space are none of the other's.
pub open spec fn apart(m: MemV, r: u64, s: u64) -> bool {
    forall|t: u64| #[trigger] owns(m, r, t) ==> !owns(m, s, t)
}

/// The byte the user reads at `va`; none where no page is mapped.
pub open spec fn umem(m: MemV, root: u64, va: u64) -> Option<u8> {
    let e = pt::leaf_at(m, root, va);
    if pt::owned_leaf(e) {
        Some(byte_at(m, (pt::pte_pa_of(e) + va % PAGE_SIZE) as u64))
    } else {
        None
    }
}

/// Indices of a page number.
pub open spec fn pa2(p: int) -> int {
    p / 0x4_0000
}

pub open spec fn pa1(p: int) -> int {
    p / 512 % 512
}

pub open spec fn pa0(p: int) -> int {
    p % 512
}

/// Below `VA_END` an address's indices are those of its page number.
pub proof fn lemma_indices(va: u64)
    requires
        va < VA_END,
    ensures
        pt::vpn_of(va, 2) == pa2(va as int / 4096),
        pt::vpn_of(va, 1) == pa1(va as int / 4096),
        pt::vpn_of(va, 0) == pa0(va as int / 4096),
        0 <= pt::vpn_of(va, 2) < WORDS,
        0 <= pt::vpn_of(va, 1) < WORDS,
        0 <= pt::vpn_of(va, 0) < WORDS,
{
    assert((va >> 30) & 0x1ff == va / 0x4000_0000 && (va >> 21) & 0x1ff == va / 0x20_0000 % 512 && (va
        >> 12) & 0x1ff == va / 0x1000 % 512) by (bit_vector)
        requires
            va < 0x80_0000_0000,
    ;
}

/// Pages below `VA_END` with the same indices are the same page.
pub proof fn lemma_same_page(u: u64, v: u64)
    requires
        u < VA_END,
        v < VA_END,
    ensures
        (pt::vpn_of(u, 2) == pt::vpn_of(v, 2) && pt::vpn_of(u, 1) == pt::vpn_of(v, 1) && pt::vpn_of(u, 0)
            == pt::vpn_of(v, 0)) <==> u / PAGE_SIZE == v / PAGE_SIZE,
{
    lemma_indices(u);
    lemma_indices(v);
}

/// A space none of whose frames changed or was freed is what it was.
#[verifier::spinoff_prover]
#[verifier::rlimit(60)]
pub proof fn lemma_space_kept(m: MemV, n: MemV, root: u64)
    requires
        m.wf(),
        space_wf(m, root),
        forall|t: u64| #[trigger] owns(m, root, t) ==> n.ram[frame::fi(t)] == m.ram[frame::fi(t)] && !n.free(t),
    ensures
        space_wf(n, root),
        pt::same_leaves(m, n, root),
        forall|a: int| pt::ix(a) ==> #[trigger] pt::has1(n, root, a) == pt::has1(m, root, a),
        forall|a: int, b: int|
            pt::ix(a) && pt::ix(b) ==> #[trigger] pt::has0(n, root, a, b) == pt::has0(m, root, a, b),
        forall|t: u64| #[trigger] owns(n, root, t) == owns(m, root, t),
        forall|t: u64| #[trigger] pt::is_table(n, root, t) == pt::is_table(m, root, t),
        forall|va: u64| va < VA_END ==> #[trigger] umem(n, root, va) == umem(m, root, va),
{
    assert(owns(m, root, root));
    assert forall|a: int| pt::ix(a) && pt::has1(m, root, a) implies n.ram[frame::fi(
        pt::l1_of(m, root, a),
    )] == m.ram[frame::fi(pt::l1_of(m, root, a))] && !n.free(pt::l1_of(m, root, a)) by {
        assert(owns(m, root, pt::l1_of(m, root, a)));
    }
    assert forall|a: int, b: int| pt::ix(a) && pt::ix(b) && pt::has0(m, root, a, b) implies n.ram[frame::fi(
        pt::l0_of(m, root, a, b),
    )] == m.ram[frame::fi(pt::l0_of(m, root, a, b))] && !n.free(pt::l0_of(m, root, a, b)) by {
        assert(owns(m, root, pt::l0_of(m, root, a, b)));
    }
    assert forall|a: int| pt::ix(a) implies #[trigger] pt::has1(n, root, a) == pt::has1(m, root, a)
        && pt::l1_of(n, root, a) == pt::l1_of(m, root, a) by {}
    assert forall|a: int, b: int| pt::ix(a) && pt::ix(b) implies #[trigger] pt::has0(n, root, a, b)
        == pt::has0(m, root, a, b) && (pt::has0(m, root, a, b) ==> pt::l0_of(n, root, a, b) == pt::l0_of(
        m,
        root,
        a,
        b,
    )) by {}
    assert(pt::same_leaves(m, n, root));
    assert forall|a: int, b: int, c: int| #[trigger] upage(n, root, a, b, c) == upage(m, root, a, b, c)
        && (upage(m, root, a, b, c) ==> upa(n, root, a, b, c) == upa(m, root, a, b, c)) by {
        if pt::ix(a) && pt::ix(b) && pt::ix(c) {
            assert(pt::leaf(n, root, a, b, c) == pt::leaf(m, root, a, b, c));
        }
    }
    assert forall|t: u64| #[trigger] pt::is_table(n, root, t) == pt::is_table(m, root, t) by {
        lemma_is_table_same(m, n, root, t);
        lemma_is_table_same(n, m, root, t);
    }
    assert forall|t: u64| #[trigger] owns(n, root, t) == owns(m, root, t) by {
        assert(pt::is_table(n, root, t) == pt::is_table(m, root, t));
        if owns(n, root, t) && !pt::is_table(n, root, t) {
            let (a, b, c) = choose|a: int, b: int, c: int| #[trigger]
                upage(n, root, a, b, c) && upa(n, root, a, b, c) == t;
            assert(upage(m, root, a, b, c));
        }
        if owns(m, root, t) && !pt::is_table(m, root, t) {
            let (a, b, c) = choose|a: int, b: int, c: int| #[trigger]
                upage(m, root, a, b, c) && upa(m, root, a, b, c) == t;
            assert(upage(n, root, a, b, c));
        }
    }
    assert forall|a: int, b: int, c: int| #[trigger] upage(n, root, a, b, c) implies n.live(
        upa(n, root, a, b, c),
    ) && !pt::is_table(n, root, upa(n, root, a, b, c)) by {
        assert(upage(m, root, a, b, c));
        assert(owns(m, root, upa(m, root, a, b, c)));
    }
    assert forall|a: int, b: int, c: int, x: int, y: int, z: int| #[trigger]
        upage(n, root, a, b, c) && #[trigger] upage(n, root, x, y, z) && (a != x || b != y || c != z) implies upa(
        n,
        root,
        a,
        b,
        c,
    ) != upa(n, root, x, y, z) by {
        assert(upage(m, root, a, b, c) && upage(m, root, x, y, z));
    }
    assert forall|va: u64| va < VA_END implies #[trigger] umem(n, root, va) == umem(m, root, va) by {
        lemma_indices(va);
        let (a, b, c) = (pt::vpn_of(va, 2), pt::vpn_of(va, 1), pt::vpn_of(va, 0));
        assert(pt::leaf(n, root, a, b, c) == pt::leaf(m, root, a, b, c));
        if pt::owned_leaf(pt::leaf_at(m, root, va)) {
            assert(upage(m, root, a, b, c));
            let t = upa(m, root, a, b, c);
            assert(owns(m, root, t));
            assert(frame::fi((t + va % PAGE_SIZE) as u64) == frame::fi(t));
        }
    }
}

proof fn lemma_is_table_same(m: MemV, n: MemV, root: u64, t: u64)
    requires
        forall|a: int|
            pt::ix(a) ==> #[trigger] pt::has1(n, root, a) == pt::has1(m, root, a) && pt::l1_of(n, root, a)
                == pt::l1_of(m, root, a),
        forall|a: int, b: int|
            pt::ix(a) && pt::ix(b) ==> #[trigger] pt::has0(n, root, a, b) == pt::has0(m, root, a, b) && (
            pt::has0(m, root, a, b) ==> pt::l0_of(n, root, a, b) == pt::l0_of(m, root, a, b)),
    ensures
        pt::is_table(m, root, t) ==> pt::is_table(n, root, t),
{
    if pt::is_table(m, root, t) && t != root {
        if exists|a: int| pt::ix(a) && #[trigger] pt::has1(m, root, a) && pt::l1_of(m, root, a) == t {
            let a = choose|a: int| pt::ix(a) && #[trigger] pt::has1(m, root, a) && pt::l1_of(m, root, a) == t;
            assert(pt::has1(n, root, a) && pt::l1_of(n, root, a) == t);
        } else {
            let (a, b) = choose|a: int, b: int|
                pt::ix(a) && pt::ix(b) && #[trigger] pt::has0(m, root, a, b) && pt::l0_of(m, root, a, b) == t;
            assert(pt::ix(a) && pt::ix(b) && pt::has0(m, root, a, b));
            assert(pt::has0(n, root, a, b));
            assert(pt::l0_of(n, root, a, b) == t);
        }
    }
}

// ---- mapping fresh pages ----

/// Two addresses lie on the same page.
pub open spec fn same_page(u: u64, v: u64) -> bool {
    u / PAGE_SIZE == v / PAGE_SIZE
}

/// User-visible memory after a fresh zero page is mapped at `va`.
pub open spec fn with_zero_page(m: MemV, n: MemV, root: u64, va: u64) -> bool {
    forall|u: u64|
        u < VA_END ==> #[trigger] umem(n, root, u) == if same_page(u, va) {
            Some(0u8)
        } else {
            umem(m, root, u)
        }
}

/// A fresh frame `pa`, taken from `m1`, mapped for the user at `va`.
#[verifier::spinoff_prover]
#[verifier::rlimit(60)]
proof fn lemma_map_page(m1: MemV, m3: MemV, root: u64, va: u64, flags: u64, cg: usize)
    requires
        m1.wf(),
        space_wf(m1, root),
        va < VA_END,
        pt::perm(flags),
        m1.fa.can_alloc(cg),
        m3.wf(),
        pt::tables_wf(m3, root),
        pt::only_grows(m1.grab(cg), m3, root),
        pt::tight(m1.grab(cg), m3, root),
        pt::translation(m1, root, va) is None,
        pt::leaves_but(
            m1.grab(cg),
            m3,
            root,
            pt::vpn_of(va, 2),
            pt::vpn_of(va, 1),
            pt::vpn_of(va, 0),
            pt::pte_new_of(m1.fa.next_frame(), (flags | PTE_U) | PTE_VAD),
        ),
    ensures
        space_wf(m3, root),
        space_only(m1, m3, root),
        with_zero_page(m1, m3, root, va),
        pt::leaves_but(
            m1,
            m3,
            root,
            pt::vpn_of(va, 2),
            pt::vpn_of(va, 1),
            pt::vpn_of(va, 0),
            pt::pte_new_of(m1.fa.next_frame(), (flags | PTE_U) | PTE_VAD),
        ),
        pt::owned_leaf(pt::leaf_at(m3, root, va)),
{
    let pa = m1.fa.next_frame();
    let m2 = m1.grab(cg);
    let e = pt::pte_new_of(pa, (flags | PTE_U) | PTE_VAD);
    let (x0, y0, z0) = (pt::vpn_of(va, 2), pt::vpn_of(va, 1), pt::vpn_of(va, 0));
    frame::law_alloc(m1, cg);
    lemma_indices(va);
    lemma_user_flags(flags);
    pt::lemma_pte_bits(pa, (flags | PTE_U) | PTE_VAD);
    assert forall|t: u64| #[trigger] owns(m1, root, t) implies m1.live(t) by {
        lemma_owned_live(m1, root, t);
    }
    assert forall|t: u64| #[trigger] owns(m1, root, t) implies m2.ram[frame::fi(t)] == m1.ram[frame::fi(t)]
        && !m2.free(t) by {
        lemma_owned_live(m1, root, t);
        pt::lemma_fi_inj(t, pa);
    }
    lemma_space_kept(m1, m2, root);
    assert(!owns(m1, root, pa));
    assert(!owns(m2, root, pa));
    assert forall|x: int, y: int, z: int| #[trigger] upage(m3, root, x, y, z) implies (if x == x0 && y == y0
        && z == z0 {
        upa(m3, root, x, y, z) == pa
    } else {
        upage(m1, root, x, y, z) && upa(m3, root, x, y, z) == upa(m1, root, x, y, z)
    }) by {
        assert(pt::leaf(m3, root, x, y, z) == if x == x0 && y == y0 && z == z0 {
            e
        } else {
            pt::leaf(m2, root, x, y, z)
        });
        assert(pt::leaf(m2, root, x, y, z) == pt::leaf(m1, root, x, y, z));
    }
    assert forall|t: u64| (m1.live(t) || t == pa) && !pt::is_table(m1, root, t) implies !(
    #[trigger] pt::is_table(m3, root, t)) by {
        assert(pt::is_table(m2, root, t) == pt::is_table(m1, root, t));
        assert(pt::is_table(m3, root, t) ==> pt::is_table(m2, root, t) || m2.free(t));
        if t == pa {
            assert(!owns(m1, root, pa));
        }
    }
    assert(upages_wf(m3, root)) by {
        assert forall|a: int, b: int, c: int| #[trigger] upage(m3, root, a, b, c) implies m3.live(
            upa(m3, root, a, b, c),
        ) && !pt::is_table(m3, root, upa(m3, root, a, b, c)) by {
            let t = upa(m3, root, a, b, c);
            if t != pa {
                assert(upage(m1, root, a, b, c));
                assert(owns(m1, root, t));
            }
            assert(m3.free(t) ==> m2.free(t));
            assert(pt::leaf(m3, root, a, b, c) == if a == x0 && b == y0 && c == z0 {
                e
            } else {
                pt::leaf(m1, root, a, b, c)
            });
        }
        assert forall|a: int, b: int, c: int, x: int, y: int, z: int| #[trigger]
            upage(m3, root, a, b, c) && #[trigger] upage(m3, root, x, y, z) && (a != x || b != y || c
                != z) implies upa(m3, root, a, b, c) != upa(m3, root, x, y, z) by {
            if !(a == x0 && b == y0 && c == z0) {
                assert(upage(m1, root, a, b, c));
                assert(owns(m1, root, upa(m1, root, a, b, c)));
            }
            if !(x == x0 && y == y0 && z == z0) {
                assert(upage(m1, root, x, y, z));
                assert(owns(m1, root, upa(m1, root, x, y, z)));
            }
        }
    }
    assert(space_only(m1, m3, root)) by {
        assert forall|t: u64| frame::in_ram(t) && !owns(m1, root, t) && !m1.free(t) implies #[trigger] m3.ram[frame::fi(
            t,
        )] == m1.ram[frame::fi(t)] by {
            pt::lemma_fi_inj(t, pa);
            assert(owns(m2, root, t) == owns(m1, root, t));
            assert(m3.ram[frame::fi(t)] == m2.ram[frame::fi(t)]);
        }
        assert forall|t: u64| #[trigger] m3.free(t) implies m1.free(t) by {
            assert(m2.free(t));
        }
        assert forall|t: u64| #[trigger] owns(m3, root, t) implies owns(m1, root, t) || m1.free(t) by {
            if pt::is_table(m3, root, t) {
                assert(pt::is_table(m2, root, t) || m2.free(t));
                assert(pt::is_table(m2, root, t) == pt::is_table(m1, root, t));
            } else {
                let (a, b, c) = choose|a: int, b: int, c: int| #[trigger]
                    upage(m3, root, a, b, c) && upa(m3, root, a, b, c) == t;
                if t != pa {
                    assert(upage(m1, root, a, b, c));
                }
            }
        }
        assert(upage(m3, root, x0, y0, z0) && upa(m3, root, x0, y0, z0) == pa) by {
            assert(pt::leaf(m3, root, x0, y0, z0) == e);
        }
        assert forall|t: u64| #![trigger m3.free(t)] m1.free(t) && !m3.free(t) implies owns(m3, root, t) by {
            if t != pa {
                assert(m2.free(t));
                assert(pt::is_table(m3, root, t));
            }
        }
        assert forall|t: u64| #[trigger] owns(m1, root, t) implies owns(m3, root, t) by {
            if pt::is_table(m1, root, t) {
                assert(pt::is_table(m2, root, t));
                assert(pt::is_table(m3, root, t));
            } else {
                let (a, b, c) = choose|a: int, b: int, c: int| #[trigger]
                    upage(m1, root, a, b, c) && upa(m1, root, a, b, c) == t;
                assert(!(a == x0 && b == y0 && c == z0));
                assert(pt::leaf(m3, root, a, b, c) == pt::leaf(m2, root, a, b, c));
                assert(pt::leaf(m2, root, a, b, c) == pt::leaf(m1, root, a, b, c));
                assert(upage(m3, root, a, b, c));
            }
        }
    }
    assert(pt::leaves_but(m1, m3, root, x0, y0, z0, e)) by {
        assert forall|x: int, y: int, z: int| pt::ix(x) && pt::ix(y) && pt::ix(z) implies #[trigger] pt::leaf(
            m3,
            root,
            x,
            y,
            z,
        ) == if x == x0 && y == y0 && z == z0 {
            e
        } else {
            pt::leaf(m1, root, x, y, z)
        } by {
            assert(pt::leaf(m2, root, x, y, z) == pt::leaf(m1, root, x, y, z));
        }
    }
    assert forall|u: u64| u < VA_END implies #[trigger] umem(m3, root, u) == if same_page(u, va) {
        Some(0u8)
    } else {
        umem(m1, root, u)
    } by {
        lemma_indices(u);
        lemma_same_page(u, va);
        let (a, b, c) = (pt::vpn_of(u, 2), pt::vpn_of(u, 1), pt::vpn_of(u, 0));
        if same_page(u, va) {
            assert(pt::leaf(m3, root, a, b, c) == e);
            let q = (pa + u % PAGE_SIZE) as u64;
            assert(frame::fi(q) == frame::fi(pa));
            assert(m2.ram[frame::fi(pa)] == frame::zero_frame());
            assert(m3.ram[frame::fi(pa)] == m2.ram[frame::fi(pa)]);
            lemma_byte_of_zero(q % 8);
        } else {
            assert(pt::leaf(m3, root, a, b, c) == pt::leaf(m1, root, a, b, c));
            if pt::owned_leaf(pt::leaf_at(m1, root, u)) {
                assert(upage(m1, root, a, b, c));
                let t = upa(m1, root, a, b, c);
                assert(owns(m1, root, t));
                assert(!pt::is_table(m1, root, t));
                assert(pt::is_table(m2, root, t) == pt::is_table(m1, root, t));
                assert(m3.ram[frame::fi(t)] == m2.ram[frame::fi(t)]);
                assert(frame::fi((t + u % PAGE_SIZE) as u64) == frame::fi(t));
            }
        }
    }
}

proof fn lemma_user_flags(flags: u64)
    ensures
        pt::valid((flags | PTE_U) | PTE_VAD),
        pt::user((flags | PTE_U) | PTE_VAD),
        pt::perm((flags | PTE_U) | PTE_VAD) == pt::perm(flags),
{
    assert(((flags | PTE_U) | PTE_VAD) & 1 != 0 && ((flags | PTE_U) | PTE_VAD) & 16 != 0 && (((flags
        | PTE_U) | PTE_VAD) & 14) == flags & 14) by (bit_vector);
}

/// Every frame of a space is live.
pub proof fn lemma_owned_live(m: MemV, root: u64, t: u64)
    requires
        space_wf(m, root),
        owns(m, root, t),
    ensures
        m.live(t),
{
    if !pt::is_table(m, root, t) {
        let (a, b, c) = choose|a: int, b: int, c: int| #[trigger]
            upage(m, root, a, b, c) && upa(m, root, a, b, c) == t;
    }
}

/// Mapping a fresh frame failed for want of a table, and the frame went back.
#[verifier::spinoff_prover]
#[verifier::rlimit(60)]
proof fn lemma_map_failed(m1: MemV, m3: MemV, root: u64, cg: usize)
    requires
        m1.wf(),
        space_wf(m1, root),
        m1.fa.can_alloc(cg),
        m3.wf(),
        pt::tables_wf(m3, root),
        pt::only_grows(m1.grab(cg), m3, root),
        pt::tight(m1.grab(cg), m3, root),
        pt::same_leaves(m1.grab(cg), m3, root),
    ensures
        m3.live(m1.fa.next_frame()),
        m3.dealloc(m1.fa.next_frame()).wf(),
        space_wf(m3.dealloc(m1.fa.next_frame()), root),
        space_only(m1, m3.dealloc(m1.fa.next_frame()), root),
        forall|u: u64|
            u < VA_END ==> #[trigger] umem(m3.dealloc(m1.fa.next_frame()), root, u) == umem(m1, root, u),
        pt::same_leaves(m1, m3.dealloc(m1.fa.next_frame()), root),
{
    let pa = m1.fa.next_frame();
    let m2 = m1.grab(cg);
    let m4 = m3.dealloc(pa);
    frame::law_alloc(m1, cg);
    assert forall|t: u64| #[trigger] owns(m1, root, t) implies m2.ram[frame::fi(t)] == m1.ram[frame::fi(t)]
        && !m2.free(t) && m1.live(t) by {
        lemma_owned_live(m1, root, t);
        pt::lemma_fi_inj(t, pa);
    }
    lemma_space_kept(m1, m2, root);
    assert(!owns(m1, root, pa));
    assert(!owns(m2, root, pa));
    assert(!m3.free(pa)) by {
        assert(m3.free(pa) ==> m2.free(pa));
    }
    assert forall|x: int, y: int, z: int| #[trigger] upage(m3, root, x, y, z) implies upage(
        m1,
        root,
        x,
        y,
        z,
    ) && upa(m3, root, x, y, z) == upa(m1, root, x, y, z) by {
        assert(pt::leaf(m3, root, x, y, z) == pt::leaf(m2, root, x, y, z));
        assert(pt::leaf(m2, root, x, y, z) == pt::leaf(m1, root, x, y, z));
    }
    assert forall|t: u64| m1.live(t) && !pt::is_table(m1, root, t) implies !(#[trigger] pt::is_table(
        m3,
        root,
        t,
    )) by {
        assert(pt::is_table(m2, root, t) == pt::is_table(m1, root, t));
        assert(pt::is_table(m3, root, t) ==> pt::is_table(m2, root, t) || m2.free(t));
    }
    assert(upages_wf(m3, root)) by {
        assert forall|a: int, b: int, c: int| #[trigger] upage(m3, root, a, b, c) implies m3.live(
            upa(m3, root, a, b, c),
        ) && !pt::is_table(m3, root, upa(m3, root, a, b, c)) by {
            let t = upa(m3, root, a, b, c);
            assert(upage(m1, root, a, b, c));
            assert(owns(m1, root, t));
            assert(m3.free(t) ==> m2.free(t));
            assert(pt::leaf(m3, root, a, b, c) == pt::leaf(m2, root, a, b, c));
            assert(pt::leaf(m2, root, a, b, c) == pt::leaf(m1, root, a, b, c));
        }
        assert forall|a: int, b: int, c: int, x: int, y: int, z: int| #[trigger]
            upage(m3, root, a, b, c) && #[trigger] upage(m3, root, x, y, z) && (a != x || b != y || c
                != z) implies upa(m3, root, a, b, c) != upa(m3, root, x, y, z) by {
            assert(upage(m1, root, a, b, c) && upage(m1, root, x, y, z));
        }
    }
    assert(!owns(m3, root, pa)) by {
        if pt::is_table(m3, root, pa) {
            assert(pt::is_table(m2, root, pa) || m2.free(pa));
        } else if owns(m3, root, pa) {
            let (a, b, c) = choose|a: int, b: int, c: int| #[trigger]
                upage(m3, root, a, b, c) && upa(m3, root, a, b, c) == pa;
            assert(upage(m1, root, a, b, c));
            assert(owns(m1, root, pa));
        }
    }
    frame::law_dealloc(m3, pa);
    assert forall|t: u64| #[trigger] owns(m3, root, t) implies m4.ram[frame::fi(t)] == m3.ram[frame::fi(t)]
        && !m4.free(t) by {
        lemma_owned_live(m3, root, t);
        pt::lemma_fi_inj(t, pa);
    }
    lemma_space_kept(m3, m4, root);
    assert forall|u: u64| u < VA_END implies #[trigger] umem(m4, root, u) == umem(m1, root, u) by {
        lemma_indices(u);
        let (a, b, c) = (pt::vpn_of(u, 2), pt::vpn_of(u, 1), pt::vpn_of(u, 0));
        assert(umem(m4, root, u) == umem(m3, root, u));
        assert(pt::leaf(m3, root, a, b, c) == pt::leaf(m2, root, a, b, c));
        assert(pt::leaf(m2, root, a, b, c) == pt::leaf(m1, root, a, b, c));
        if pt::owned_leaf(pt::leaf_at(m1, root, u)) {
            assert(upage(m1, root, a, b, c));
            let t = upa(m1, root, a, b, c);
            assert(owns(m1, root, t));
            assert(pt::is_table(m2, root, t) == pt::is_table(m1, root, t));
            assert(m3.ram[frame::fi(t)] == m2.ram[frame::fi(t)]);
            assert(frame::fi((t + u % PAGE_SIZE) as u64) == frame::fi(t));
        }
    }
    assert(pt::same_leaves(m1, m4, root)) by {
        assert forall|x: int, y: int, z: int| pt::ix(x) && pt::ix(y) && pt::ix(z) implies #[trigger] pt::leaf(
            m4,
            root,
            x,
            y,
            z,
        ) == pt::leaf(m1, root, x, y, z) by {
            assert(pt::leaf(m4, root, x, y, z) == pt::leaf(m3, root, x, y, z));
            assert(pt::leaf(m3, root, x, y, z) == pt::leaf(m2, root, x, y, z));
            assert(pt::leaf(m2, root, x, y, z) == pt::leaf(m1, root, x, y, z));
        }
    }
    assert(space_only(m1, m4, root)) by {
        assert forall|t: u64| frame::in_ram(t) && !owns(m1, root, t) && !m1.free(t) implies #[trigger] m4.ram[frame::fi(
            t,
        )] == m1.ram[frame::fi(t)] by {
            pt::lemma_fi_inj(t, pa);
            assert(owns(m2, root, t) == owns(m1, root, t));
            assert(m3.ram[frame::fi(t)] == m2.ram[frame::fi(t)]);
        }
        assert forall|t: u64| #[trigger] m4.free(t) implies m1.free(t) by {
            if t != pa {
                assert(m3.free(t));
                assert(m2.free(t));
            }
        }
        assert forall|t: u64| #[trigger] owns(m4, root, t) implies owns(m1, root, t) || m1.free(t) by {
            assert(owns(m3, root, t));
            if pt::is_table(m3, root, t) {
                assert(pt::is_table(m2, root, t) || m2.free(t));
                assert(pt::is_table(m2, root, t) == pt::is_table(m1, root, t));
            } else {
                let (a, b, c) = choose|a: int, b: int, c: int| #[trigger]
                    upage(m3, root, a, b, c) && upa(m3, root, a, b, c) == t;
                assert(upage(m1, root, a, b, c));
            }
        }
        assert forall|t: u64| #![trigger m4.free(t)] m1.free(t) && !m4.free(t) implies owns(m4, root, t) by {
            assert(t != pa);
            assert(m2.free(t));
            assert(!m3.free(t));
            assert(pt::is_table(m3, root, t));
            assert(owns(m3, root, t));
        }
        assert forall|t: u64| #[trigger] owns(m1, root, t) implies owns(m4, root, t) by {
            if pt::is_table(m1, root, t) {
                assert(pt::is_table(m2, root, t));
                assert(pt::is_table(m3, root, t));
                assert(owns(m3, root, t));
            } else {
                let (a, b, c) = choose|a: int, b: int, c: int| #[trigger]
                    upage(m1, root, a, b, c) && upa(m1, root, a, b, c) == t;
                assert(pt::leaf(m3, root, a, b, c) == pt::leaf(m2, root, a, b, c));
                assert(pt::leaf(m2, root, a, b, c) == pt::leaf(m1, root, a, b, c));
                assert(upage(m3, root, a, b, c));
                assert(owns(m3, root, t));
            }
        }
    }
}

/// Pages among the first `n` from `start` on that are not mapped.
pub open spec fn unmapped(m: MemV, root: u64, start: u64, n: nat) -> nat
    decreases n,
{
    if n == 0 {
        0
    } else {
        unmapped(m, root, start, (n - 1) as nat) + if pt::translation(
            m,
            root,
            pt::page_va(start, (n - 1) as nat),
        ) is Some {
            0nat
        } else {
            1
        }
    }
}

/// Frames that mapping the first `n` pages from `start` on takes: the pages
/// not mapped yet, and the tables missing for them.
pub open spec fn user_need(m: MemV, root: u64, start: u64, n: nat) -> nat {
    unmapped(m, root, start, n) + pt::range_tables(m, root, start, n)
}

/// How many of the first `n` pages from `start` on can be mapped with `room`
/// frames.
pub open spec fn fits(m: MemV, root: u64, start: u64, n: nat, room: nat) -> nat
    decreases n,
{
    if n == 0 || user_need(m, root, start, n) <= room {
        n
    } else {
        fits(m, root, start, (n - 1) as nat, room)
    }
}

/// The pages that fit are those before the first that does not.
proof fn lemma_fits(m: MemV, root: u64, start: u64, n: nat, room: nat, i: nat)
    requires
        i < n,
        user_need(m, root, start, i) <= room,
        user_need(m, root, start, i + 1) > room,
    ensures
        fits(m, root, start, n, room) == i,
    decreases n,
{
    lemma_need_mono(m, root, start, i + 1, n);
    assert(fits(m, root, start, i, room) == i);
    if n > i + 1 {
        lemma_fits(m, root, start, (n - 1) as nat, room, i);
    }
}

/// The pages of the range that are mapped at all are user pages.
pub open spec fn user_range(m: MemV, root: u64, start: u64, n: nat) -> bool {
    forall|i: nat|
        i < n && pt::translation(m, root, #[trigger] pt::page_va(start, i)) is Some ==> pt::user(
            pt::leaf_at(m, root, pt::page_va(start, i)),
        )
}

/// The address lies on one of the `n` pages from `start` on.
pub open spec fn in_pages(start: u64, n: nat, u: u64) -> bool {
    start / PAGE_SIZE <= u / PAGE_SIZE < start / PAGE_SIZE + n
}

/// What the user sees after the range's holes are filled with zero pages.
pub open spec fn filled(m: MemV, n: MemV, root: u64, start: u64, k: nat) -> bool {
    forall|u: u64|
        u < VA_END ==> #[trigger] umem(n, root, u) == if umem(m, root, u) is None && in_pages(start, k, u) {
            Some(0u8)
        } else {
            umem(m, root, u)
        }
}

/// Entries after the range's holes are filled: a filled one maps a fresh frame
/// with the given permissions.
pub open spec fn filled_leaves(m: MemV, n: MemV, root: u64, start: u64, k: nat, flags: u64) -> bool {
    forall|x: int, y: int, z: int|
        pt::ix(x) && pt::ix(y) && pt::ix(z) ==> {
            let e = #[trigger] pt::leaf(n, root, x, y, z);
            let e0 = pt::leaf(m, root, x, y, z);
            if pt::page_in(start, k, x, y, z) && !(pt::valid(e0) && pt::perm(e0)) {
                e == pt::pte_new_of(pt::pte_pa_of(e), (flags | PTE_U) | PTE_VAD) && m.free(
                    pt::pte_pa_of(e),
                )
            } else {
                e == e0
            }
        }
}

proof fn lemma_seen_skip(m0: MemV, m1: MemV, root: u64, start: u64, i: nat)
    requires
        pt::tables_seen(m0, m1, root, start, i),
        pt::has0(
            m0,
            root,
            pt::vpn_of(pt::page_va(start, i), 2),
            pt::vpn_of(pt::page_va(start, i), 1),
        ),
    ensures
        pt::tables_seen(m0, m1, root, start, i + 1),
{
    assert forall|x: int| pt::ix(x) implies #[trigger] pt::has1(m1, root, x) == (pt::has1(m0, root, x)
        || pt::touches1(start, i + 1, x)) by {
        if pt::touches1(start, i + 1, x) {
            let j = choose|j: nat| j < i + 1 && pt::vpn_of(#[trigger] pt::page_va(start, j), 2) == x;
            if j < i {
                assert(pt::touches1(start, i, x));
            }
        }
        if pt::touches1(start, i, x) {
            let j = choose|j: nat| j < i && pt::vpn_of(#[trigger] pt::page_va(start, j), 2) == x;
            assert(j < i + 1);
        }
    }
    assert forall|x: int, y: int| pt::ix(x) && pt::ix(y) implies #[trigger] pt::has0(m1, root, x, y) == (
    pt::has0(m0, root, x, y) || pt::touches0(start, i + 1, x, y)) by {
        if pt::touches0(start, i + 1, x, y) {
            let j = choose|j: nat|
                j < i + 1 && pt::vpn_of(#[trigger] pt::page_va(start, j), 2) == x && pt::vpn_of(
                    pt::page_va(start, j),
                    1,
                ) == y;
            if j < i {
                assert(pt::touches0(start, i, x, y));
            }
        }
        if pt::touches0(start, i, x, y) {
            let j = choose|j: nat|
                j < i && pt::vpn_of(#[trigger] pt::page_va(start, j), 2) == x && pt::vpn_of(
                    pt::page_va(start, j),
                    1,
                ) == y;
            assert(j < i + 1);
        }
    }
}

pub proof fn lemma_need_mono(m: MemV, root: u64, start: u64, i: nat, n: nat)
    requires
        i <= n,
    ensures
        user_need(m, root, start, i) <= user_need(m, root, start, n),
    decreases n,
{
    if i < n {
        lemma_need_mono(m, root, start, i, (n - 1) as nat);
    }
}

pub proof fn lemma_grabs_add(f: frame::FrameV, cg: usize, a: nat, b: nat)
    ensures
        f.grabs(cg, a).grabs(cg, b) == f.grabs(cg, a + b),
    decreases b,
{
    if b > 0 {
        lemma_grabs_add(f, cg, a, (b - 1) as nat);
    }
}

/// A hole in a user range is seen as nothing by the user.
proof fn lemma_hole(m: MemV, root: u64, va: u64)
    requires
        pt::translation(m, root, va) is None,
    ensures
        !pt::owned_leaf(pt::leaf_at(m, root, va)),
{
}

/// Fills the holes of `[va, va + len)` with fresh zero pages, charged to `cg`.
/// False when a frame cannot be had; the pages before it stay mapped.
#[verifier::spinoff_prover]
#[verifier::rlimit(60)]
pub fn alloc_map_user(m: &mut Mem, root: u64, va: u64, len: u64, flags: u64, cg: usize) -> (ok: bool)
    requires
        old(m)@.wf(),
        space_wf(old(m)@, root),
        pt::perm(flags),
        va + len <= VA_END,
        user_range(old(m)@, root, pt::page_down(va), pt::span(va, len)),
    ensures
        final(m)@.wf(),
        space_wf(final(m)@, root),
        space_only(old(m)@, final(m)@, root),
        frame::owners_kept(old(m)@, final(m)@),
        ok == (user_need(old(m)@, root, pt::page_down(va), pt::span(va, len)) <= old(m)@.fa.room(cg)),
        ok ==> {
            &&& final(m)@.fa == old(m)@.fa.grabs(
                cg,
                user_need(old(m)@, root, pt::page_down(va), pt::span(va, len)),
            )
            &&& filled(old(m)@, final(m)@, root, pt::page_down(va), pt::span(va, len))
            &&& filled_leaves(old(m)@, final(m)@, root, pt::page_down(va), pt::span(va, len), flags)
            &&& pt::tables_seen(old(m)@, final(m)@, root, pt::page_down(va), pt::span(va, len))
        },
        !ok ==> {
            let k = fits(old(m)@, root, pt::page_down(va), pt::span(va, len), old(m)@.fa.room(cg));
            &&& k < pt::span(va, len)
            &&& filled(old(m)@, final(m)@, root, pt::page_down(va), k)
            &&& filled_leaves(old(m)@, final(m)@, root, pt::page_down(va), k, flags)
        },
{
    let start: u64 = va - va % PAGE_SIZE;
    let end: u64 = (va + len + (PAGE_SIZE - 1)) / PAGE_SIZE * PAGE_SIZE;
    let ghost m0 = m@;
    let ghost n = pt::span(va, len);
    let mut cur: u64 = start;
    let ghost mut i: nat = 0;
    proof {
        lemma_only_refl(m0, root);
        assert(pt::range_tables(m0, root, start, 0) == 0);
    }
    while cur < end
        invariant
            m0 == old(m)@,
            m0.wf(),
            m@.wf(),
            space_wf(m@, root),
            space_only(m0, m@, root),
            start == pt::page_down(va),
            n == pt::span(va, len),
            pt::perm(flags),
            va + len <= VA_END,
            start % PAGE_SIZE == 0,
            end % PAGE_SIZE == 0,
            end <= VA_END,
            cur == start + i * PAGE_SIZE,
            end == start + n * PAGE_SIZE,
            i <= n,
            user_range(m0, root, start, n),
            user_need(m0, root, start, i) <= m0.fa.room(cg),
            m@.fa == m0.fa.grabs(cg, user_need(m0, root, start, i)),
            m@.fa.room(cg) == m0.fa.room(cg) - user_need(m0, root, start, i),
            pt::tables_seen(m0, m@, root, start, i),
            filled(m0, m@, root, start, i),
            filled_leaves(m0, m@, root, start, i, flags),
        decreases end + PAGE_SIZE - cur,
    {
        let ghost m1 = m@;
        let ghost (x0, y0, z0) = (pt::vpn_of(cur, 2), pt::vpn_of(cur, 1), pt::vpn_of(cur, 0));
        proof {
            assert(pt::page_va(start, i) == cur);
            lemma_indices(cur);
            pt::lemma_range_step(m0, m1, root, start, i);
            lemma_need_mono(m0, root, start, i + 1, n);
            assert(!pt::page_in(start, i, x0, y0, z0)) by {
                if pt::page_in(start, i, x0, y0, z0) {
                    let j = choose|j: nat|
                        j < i && pt::vpn_of(#[trigger] pt::page_va(start, j), 2) == x0 && pt::vpn_of(
                            pt::page_va(start, j),
                            1,
                        ) == y0 && pt::vpn_of(pt::page_va(start, j), 0) == z0;
                    lemma_same_page(pt::page_va(start, j), cur);
                }
            }
            assert(pt::leaf(m1, root, x0, y0, z0) == pt::leaf(m0, root, x0, y0, z0));
            assert(pt::translation(m1, root, cur) == pt::translation(m0, root, cur));
        }
        if pt::translate(m, root, cur).is_none() {
            proof {
                frame::lemma_room(m1, cg);
                if user_need(m0, root, start, i + 1) > m0.fa.room(cg) {
                    lemma_fits(m0, root, start, n, m0.fa.room(cg), i);
                }
            }
            let pa: u64 = match frame::alloc_frame_cg(m, cg) {
                Some(p) => p,
                None => {
                    proof {
                        frame::lemma_owners_grabs(m0, m1, cg, user_need(m0, root, start, i));
                    }
                    return false;
                },
            };
            let ghost m2 = m@;
            proof {
                lemma_grab_kept(m1, root, cg);
                frame::lemma_room(m1, cg);
                assert(pt::tables_needed(m2, root, cur) == pt::tables_needed(m1, root, cur));
            }
            if !pt::map_one(m, root, cur, pa, flags | PTE_U, cg) {
                proof {
                    lemma_map_failed(m1, m@, root, cg);
                    lemma_owners_failed(m1, m@, cg, pt::min_nat(pt::tables_needed(m2, root, cur), m2.fa.room(cg)));
                }
                frame::dealloc_frame(m, pa);
                proof {
                    frame::lemma_owners_grabs(m0, m1, cg, user_need(m0, root, start, i));
                    frame::lemma_owners_trans(m0, m1, m@);
                    lemma_only_trans(m0, m1, m@, root);
                    lemma_filled_same(m0, m1, m@, root, start, i, flags);
                }
                return false;
            }
            proof {
                lemma_map_page(m1, m@, root, cur, flags, cg);
                lemma_only_trans(m0, m1, m@, root);
                frame::law_alloc(m1, cg);
                assert(m1.free(pa));
                let k = pt::tables_needed(m2, root, cur);
                pt::lemma_grabs_room(m2, cg, k);
                lemma_grabs_add(m1.fa, cg, 1, k);
                reveal_with_fuel(frame::FrameV::grabs, 2);
                assert(m1.fa.grabs(cg, 1) == m2.fa);
                lemma_grabs_add(m0.fa, cg, user_need(m0, root, start, i), 1 + k);
                assert(pt::tables_after(m1, m@, root, cur));
                pt::lemma_seen_step(m0, m1, m@, root, start, i);
                lemma_filled_step(m0, m1, m@, root, start, i, flags, pa);
            }
        } else {
            proof {
                pt::lemma_flag_consts();
                lemma_seen_skip(m0, m1, root, start, i);
                lemma_filled_skip(m0, m1, root, start, i, flags);
            }
        }
        proof {
            i = i + 1;
        }
        cur = cur + PAGE_SIZE;
    }
    proof {
        frame::lemma_owners_grabs(m0, m@, cg, user_need(m0, root, start, i));
    }
    true
}

/// A frame taken for a page that could not be mapped goes back; frames in use
/// are charged as before.
proof fn lemma_owners_failed(m1: MemV, m3: MemV, cg: usize, k: nat)
    requires
        m1.wf(),
        m1.fa.can_alloc(cg),
        k <= m1.grab(cg).fa.room(cg),
        m3.fa == m1.grab(cg).fa.grabs(cg, k),
        m3.wf(),
    ensures
        frame::owners_kept(m1, m3.dealloc(m1.fa.next_frame())),
{
    let pa = m1.fa.next_frame();
    let m2 = m1.grab(cg);
    frame::law_alloc(m1, cg);
    frame::lemma_owners_grabs(m2, m3, cg, k);
    let m4 = m3.dealloc(pa);
    assert forall|t: u64| frame::in_ram(t) && !m1.free(t) implies #[trigger] m4.fa.owner[frame::fi(t)]
        == m1.fa.owner[frame::fi(t)] by {
        pt::lemma_fi_inj(t, pa);
        assert(m1.free(pa));
        assert(!m2.free(t));
        assert(m3.fa.owner[frame::fi(t)] == m2.fa.owner[frame::fi(t)]);
    }
}

/// Taking a frame leaves a space as it is.
proof fn lemma_grab_kept(m1: MemV, root: u64, cg: usize)
    requires
        m1.wf(),
        space_wf(m1, root),
        m1.fa.can_alloc(cg),
    ensures
        space_wf(m1.grab(cg), root),
        pt::same_leaves(m1, m1.grab(cg), root),
        forall|a: int|
            pt::ix(a) ==> #[trigger] pt::has1(m1.grab(cg), root, a) == pt::has1(m1, root, a),
        forall|a: int, b: int|
            pt::ix(a) && pt::ix(b) ==> #[trigger] pt::has0(m1.grab(cg), root, a, b) == pt::has0(
                m1,
                root,
                a,
                b,
            ),
{
    let m2 = m1.grab(cg);
    frame::law_alloc(m1, cg);
    assert forall|t: u64| #[trigger] owns(m1, root, t) implies m2.ram[frame::fi(t)] == m1.ram[frame::fi(t)]
        && !m2.free(t) by {
        lemma_owned_live(m1, root, t);
        pt::lemma_fi_inj(t, m1.fa.next_frame());
    }
    lemma_space_kept(m1, m2, root);
}

proof fn lemma_filled_same(m0: MemV, m1: MemV, m2: MemV, root: u64, start: u64, i: nat, flags: u64)
    requires
        filled(m0, m1, root, start, i),
        filled_leaves(m0, m1, root, start, i, flags),
        forall|u: u64| u < VA_END ==> #[trigger] umem(m2, root, u) == umem(m1, root, u),
        pt::same_leaves(m1, m2, root),
    ensures
        filled(m0, m2, root, start, i),
        filled_leaves(m0, m2, root, start, i, flags),
{
    assert forall|u: u64| u < VA_END implies #[trigger] umem(m2, root, u) == if umem(m0, root, u) is None
        && in_pages(start, i, u) {
        Some(0u8)
    } else {
        umem(m0, root, u)
    } by {
        assert(umem(m1, root, u) == umem(m2, root, u));
    }
    assert forall|x: int, y: int, z: int| pt::ix(x) && pt::ix(y) && pt::ix(z) implies #[trigger] pt::leaf(
        m2,
        root,
        x,
        y,
        z,
    ) == pt::leaf(m1, root, x, y, z) by {}
}

proof fn lemma_filled_step(
    m0: MemV,
    m1: MemV,
    m2: MemV,
    root: u64,
    start: u64,
    i: nat,
    flags: u64,
    pa: u64,
)
    requires
        start % PAGE_SIZE == 0,
        start + i * PAGE_SIZE < VA_END,
        filled(m0, m1, root, start, i),
        filled_leaves(m0, m1, root, start, i, flags),
        pt::translation(m0, root, pt::page_va(start, i)) is None,
        with_zero_page(m1, m2, root, pt::page_va(start, i)),
        pt::leaves_but(
            m1,
            m2,
            root,
            pt::vpn_of(pt::page_va(start, i), 2),
            pt::vpn_of(pt::page_va(start, i), 1),
            pt::vpn_of(pt::page_va(start, i), 0),
            pt::pte_new_of(pa, (flags | PTE_U) | PTE_VAD),
        ),
        m0.free(pa),
        frame::in_ram(pa),
    ensures
        filled(m0, m2, root, start, i + 1),
        filled_leaves(m0, m2, root, start, i + 1, flags),
{
    let v = pt::page_va(start, i);
    lemma_indices(v);
    assert forall|u: u64| u < VA_END implies #[trigger] umem(m2, root, u) == if umem(m0, root, u) is None
        && in_pages(start, i + 1, u) {
        Some(0u8)
    } else {
        umem(m0, root, u)
    } by {
        assert(umem(m1, root, u) == if umem(m0, root, u) is None && in_pages(start, i, u) {
            Some(0u8)
        } else {
            umem(m0, root, u)
        });
        if same_page(u, v) {
            lemma_same_page(u, v);
            lemma_hole(m0, root, v);
            assert(pt::leaf_at(m0, root, u) == pt::leaf_at(m0, root, v));
        }
    }
    assert forall|x: int, y: int, z: int| pt::ix(x) && pt::ix(y) && pt::ix(z) implies ({
        let e = #[trigger] pt::leaf(m2, root, x, y, z);
        let e0 = pt::leaf(m0, root, x, y, z);
        if pt::page_in(start, i + 1, x, y, z) && !(pt::valid(e0) && pt::perm(e0)) {
            e == pt::pte_new_of(pt::pte_pa_of(e), (flags | PTE_U) | PTE_VAD) && m0.free(
                pt::pte_pa_of(e),
            )
        } else {
            e == e0
        }
    }) by {
        pt::lemma_page_in_step(start, i, x, y, z);
        pt::law_pte_address_roundtrip(pa, (flags | PTE_U) | PTE_VAD);
        let e1 = pt::leaf(m1, root, x, y, z);
    }
}

proof fn lemma_filled_skip(m0: MemV, m1: MemV, root: u64, start: u64, i: nat, flags: u64)
    requires
        start % PAGE_SIZE == 0,
        start + i * PAGE_SIZE < VA_END,
        filled(m0, m1, root, start, i),
        filled_leaves(m0, m1, root, start, i, flags),
        pt::translation(m0, root, pt::page_va(start, i)) is Some,
        pt::user(pt::leaf_at(m0, root, pt::page_va(start, i))),
    ensures
        filled(m0, m1, root, start, i + 1),
        filled_leaves(m0, m1, root, start, i + 1, flags),
{
    let v = pt::page_va(start, i);
    lemma_indices(v);
    assert forall|u: u64| u < VA_END implies #[trigger] umem(m1, root, u) == if umem(m0, root, u) is None
        && in_pages(start, i + 1, u) {
        Some(0u8)
    } else {
        umem(m0, root, u)
    } by {
        if same_page(u, v) {
            lemma_same_page(u, v);
            assert(pt::leaf_at(m0, root, u) == pt::leaf_at(m0, root, v));
            assert(umem(m0, root, u) is Some);
        }
    }
    assert forall|x: int, y: int, z: int| pt::ix(x) && pt::ix(y) && pt::ix(z) implies ({
        let e = #[trigger] pt::leaf(m1, root, x, y, z);
        let e0 = pt::leaf(m0, root, x, y, z);
        if pt::page_in(start, i + 1, x, y, z) && !(pt::valid(e0) && pt::perm(e0)) {
            e == pt::pte_new_of(pt::pte_pa_of(e), (flags | PTE_U) | PTE_VAD) && m0.free(
                pt::pte_pa_of(e),
            )
        } else {
            e == e0
        }
    }) by {
        pt::lemma_page_in_step(start, i, x, y, z);
    }
}

// ---- writing user memory ----

/// What the user sees after the byte at `va` is written.
pub open spec fn with_byte(m: MemV, n: MemV, root: u64, va: u64, v: u8) -> bool {
    forall|u: u64|
        u < VA_END ==> #[trigger] umem(n, root, u) == if u == va {
            Some(v)
        } else {
            umem(m, root, u)
        }
}

/// Writing to a space's pages leaves its structure alone.
proof fn lemma_content_only(m: MemV, n: MemV, root: u64)
    requires
        m.wf(),
        space_wf(m, root),
        n.fa == m.fa,
        forall|t: u64| #[trigger] pt::is_table(m, root, t) ==> n.ram[frame::fi(t)] == m.ram[frame::fi(t)],
    ensures
        space_wf(n, root),
        pt::same_leaves(m, n, root),
        pt::same_tables(m, n, root),
        forall|t: u64| #[trigger] owns(n, root, t) == owns(m, root, t),
{
    lemma_tables_kept(m, n, root);
    assert forall|x: int, y: int, z: int| #[trigger] upage(n, root, x, y, z) == upage(m, root, x, y, z)
        && (upage(m, root, x, y, z) ==> upa(n, root, x, y, z) == upa(m, root, x, y, z)) by {
        if pt::ix(x) && pt::ix(y) && pt::ix(z) {
            assert(pt::leaf(n, root, x, y, z) == pt::leaf(m, root, x, y, z));
        }
    }
    assert forall|t: u64| #[trigger] owns(n, root, t) == owns(m, root, t) by {
        assert(pt::is_table(n, root, t) == pt::is_table(m, root, t));
        if owns(n, root, t) && !pt::is_table(n, root, t) {
            let (a, b, c) = choose|a: int, b: int, c: int| #[trigger]
                upage(n, root, a, b, c) && upa(n, root, a, b, c) == t;
            assert(upage(m, root, a, b, c));
        }
        if owns(m, root, t) && !pt::is_table(m, root, t) {
            let (a, b, c) = choose|a: int, b: int, c: int| #[trigger]
                upage(m, root, a, b, c) && upa(m, root, a, b, c) == t;
            assert(upage(n, root, a, b, c));
        }
    }
    assert forall|a: int, b: int, c: int| #[trigger] upage(n, root, a, b, c) implies n.live(
        upa(n, root, a, b, c),
    ) && !pt::is_table(n, root, upa(n, root, a, b, c)) && pt::perm(pt::leaf(n, root, a, b, c)) by {
        assert(upage(m, root, a, b, c));
        assert(pt::leaf(n, root, a, b, c) == pt::leaf(m, root, a, b, c));
        assert(pt::is_table(n, root, upa(n, root, a, b, c)) == pt::is_table(
            m,
            root,
            upa(n, root, a, b, c),
        ));
    }
    assert forall|a: int, b: int, c: int, x: int, y: int, z: int| #[trigger]
        upage(n, root, a, b, c) && #[trigger] upage(n, root, x, y, z) && (a != x || b != y || c != z) implies upa(
        n,
        root,
        a,
        b,
        c,
    ) != upa(n, root, x, y, z) by {
        assert(upage(m, root, a, b, c) && upage(m, root, x, y, z));
    }
}

/// Writing a byte of a user page.
#[verifier::spinoff_prover]
#[verifier::rlimit(60)]
proof fn lemma_poke_user(m: MemV, root: u64, va: u64, v: u8)
    requires
        m.wf(),
        space_wf(m, root),
        va < VA_END,
        pt::owned_leaf(pt::leaf_at(m, root, va)),
    ensures
        ({
            let pa = (pt::pte_pa_of(pt::leaf_at(m, root, va)) + va % PAGE_SIZE) as u64;
            let n = poke(m, pa, v);
            &&& pa_ok(pa)
            &&& n.wf()
            &&& space_wf(n, root)
            &&& space_only(m, n, root)
            &&& pt::same_leaves(m, n, root)
            &&& pt::same_tables(m, n, root)
            &&& with_byte(m, n, root, va, v)
        }),
{
    lemma_indices(va);
    let (x0, y0, z0) = (pt::vpn_of(va, 2), pt::vpn_of(va, 1), pt::vpn_of(va, 0));
    assert(upage(m, root, x0, y0, z0));
    let f = upa(m, root, x0, y0, z0);
    let pa = (f + va % PAGE_SIZE) as u64;
    let n = poke(m, pa, v);
    lemma_page_off(f, va % PAGE_SIZE);
    assert forall|t: u64| frame::in_ram(t) && t != f implies #[trigger] n.ram[frame::fi(t)]
        == m.ram[frame::fi(t)] by {
        pt::lemma_fi_inj(t, f);
    }
    assert(n.wf()) by {
        assert forall|i: int| 0 <= i < n.fa.recycled.len() implies n.ram[frame::fi(
            #[trigger] n.fa.recycled[i],
        )] == frame::zero_frame() by {
            assert(m.fa.recycled.contains(n.fa.recycled[i]));
            assert(m.free(n.fa.recycled[i]));
            assert(frame::in_ram(n.fa.recycled[i]));
        }
    }
    assert forall|t: u64| #[trigger] pt::is_table(m, root, t) implies n.ram[frame::fi(t)]
        == m.ram[frame::fi(t)] by {
        assert(owns(m, root, t));
        lemma_owned_live(m, root, t);
    }
    lemma_content_only(m, n, root);
    assert(owns(m, root, f));
    assert(with_byte(m, n, root, va, v)) by {
        assert forall|u: u64| u < VA_END implies #[trigger] umem(n, root, u) == if u == va {
            Some(v)
        } else {
            umem(m, root, u)
        } by {
            lemma_poke_seen(m, n, root, va, v, u);
        }
    }
}

#[verifier::spinoff_prover]
#[verifier::rlimit(60)]
proof fn lemma_poke_seen(m: MemV, n: MemV, root: u64, va: u64, v: u8, u: u64)
    requires
        m.wf(),
        space_wf(m, root),
        va < VA_END,
        u < VA_END,
        pt::owned_leaf(pt::leaf_at(m, root, va)),
        n == poke(m, (pt::pte_pa_of(pt::leaf_at(m, root, va)) + va % PAGE_SIZE) as u64, v),
        pt::same_leaves(m, n, root),
    ensures
        umem(n, root, u) == if u == va {
            Some(v)
        } else {
            umem(m, root, u)
        },
{
    lemma_indices(va);
    lemma_indices(u);
    lemma_same_page(u, va);
    let (x0, y0, z0) = (pt::vpn_of(va, 2), pt::vpn_of(va, 1), pt::vpn_of(va, 0));
    let (a, b, c) = (pt::vpn_of(u, 2), pt::vpn_of(u, 1), pt::vpn_of(u, 0));
    assert(upage(m, root, x0, y0, z0));
    let f = upa(m, root, x0, y0, z0);
    let pa = (f + va % PAGE_SIZE) as u64;
    lemma_page_off(f, va % PAGE_SIZE);
    assert(pt::leaf(n, root, a, b, c) == pt::leaf(m, root, a, b, c));
    if pt::owned_leaf(pt::leaf_at(m, root, u)) {
        assert(upage(m, root, a, b, c));
        let t = upa(m, root, a, b, c);
        let q = (t + u % PAGE_SIZE) as u64;
        lemma_page_off(t, u % PAGE_SIZE);
        law_poke(m, pa, v, q);
        if !same_page(u, va) {
            assert(t != f);
            assert(q != pa);
        } else {
            assert(u / PAGE_SIZE == va / PAGE_SIZE);
            assert((q == pa) == (u == va));
        }
    }
}

/// Tables none of whose frames changed or was freed are what they were.
proof fn lemma_tables_kept(m: MemV, n: MemV, root: u64)
    requires
        m.wf(),
        pt::tables_wf(m, root),
        forall|t: u64| #[trigger]
            pt::is_table(m, root, t) ==> n.ram[frame::fi(t)] == m.ram[frame::fi(t)] && !n.free(t),
    ensures
        pt::tables_wf(n, root),
        pt::same_leaves(m, n, root),
        forall|a: int| pt::ix(a) ==> #[trigger] pt::has1(n, root, a) == pt::has1(m, root, a),
        forall|a: int, b: int|
            pt::ix(a) && pt::ix(b) ==> #[trigger] pt::has0(n, root, a, b) == pt::has0(m, root, a, b),
        forall|t: u64| #[trigger] pt::is_table(n, root, t) == pt::is_table(m, root, t),
{
    assert(pt::is_table(m, root, root));
    assert forall|a: int| pt::ix(a) && pt::has1(m, root, a) implies n.ram[frame::fi(
        pt::l1_of(m, root, a),
    )] == m.ram[frame::fi(pt::l1_of(m, root, a))] && !n.free(pt::l1_of(m, root, a)) by {
        assert(pt::is_table(m, root, pt::l1_of(m, root, a)));
    }
    assert forall|a: int, b: int| pt::ix(a) && pt::ix(b) && pt::has0(m, root, a, b) implies n.ram[frame::fi(
        pt::l0_of(m, root, a, b),
    )] == m.ram[frame::fi(pt::l0_of(m, root, a, b))] && !n.free(pt::l0_of(m, root, a, b)) by {
        assert(pt::is_table(m, root, pt::l0_of(m, root, a, b)));
    }
    assert forall|a: int| pt::ix(a) implies #[trigger] pt::has1(n, root, a) == pt::has1(m, root, a)
        && pt::l1_of(n, root, a) == pt::l1_of(m, root, a) by {}
    assert forall|a: int, b: int| pt::ix(a) && pt::ix(b) implies #[trigger] pt::has0(n, root, a, b)
        == pt::has0(m, root, a, b) && (pt::has0(m, root, a, b) ==> pt::l0_of(n, root, a, b) == pt::l0_of(
        m,
        root,
        a,
        b,
    )) by {}
    assert forall|t: u64| #[trigger] pt::is_table(n, root, t) == pt::is_table(m, root, t) by {
        lemma_is_table_same(m, n, root, t);
        lemma_is_table_same(n, m, root, t);
    }
}

/// Writes one byte of user memory, if its page is mapped.
pub fn write_byte_to(m: &mut Mem, root: u64, va: u64, v: u8)
    requires
        old(m)@.wf(),
        space_wf(old(m)@, root),
        va < VA_END,
        pt::translation(old(m)@, root, va) is Some ==> pt::user(pt::leaf_at(old(m)@, root, va)),
    ensures
        final(m)@.wf(),
        final(m)@.fa == old(m)@.fa,
        space_wf(final(m)@, root),
        space_only(old(m)@, final(m)@, root),
        pt::same_leaves(old(m)@, final(m)@, root),
        pt::same_tables(old(m)@, final(m)@, root),
        umem(old(m)@, root, va) is Some ==> with_byte(old(m)@, final(m)@, root, va, v),
        umem(old(m)@, root, va) is None ==> final(m)@ == old(m)@,
{
    match pt::translate(m, root, va) {
        Some(pa) => {
            proof {
                lemma_poke_user(m@, root, va, v);
            }
            poke_byte(m, pa, v);
        },
        None => {
            proof {
                lemma_only_refl(m@, root);
            }
        },
    }
}

/// What the user sees after `data` is written from `va` on.
pub open spec fn with_bytes(m: MemV, n: MemV, root: u64, va: u64, data: Seq<u8>) -> bool {
    forall|u: u64|
        u < VA_END ==> #[trigger] umem(n, root, u) == if va <= u < va + data.len() {
            Some(data[u - va])
        } else {
            umem(m, root, u)
        }
}

/// Every byte of the range is on a user page.
pub open spec fn backed(m: MemV, root: u64, va: u64, len: nat) -> bool {
    forall|u: u64| va <= u < va + len ==> #[trigger] umem(m, root, u) is Some
}

/// Writes bytes to user memory that is mapped throughout.
pub fn write_bytes_to(m: &mut Mem, root: u64, va: u64, data: &[u8])
    requires
        old(m)@.wf(),
        space_wf(old(m)@, root),
        va + data@.len() <= VA_END,
        backed(old(m)@, root, va, data@.len()),
    ensures
        final(m)@.wf(),
        final(m)@.fa == old(m)@.fa,
        space_wf(final(m)@, root),
        space_only(old(m)@, final(m)@, root),
        pt::same_leaves(old(m)@, final(m)@, root),
        pt::same_tables(old(m)@, final(m)@, root),
        with_bytes(old(m)@, final(m)@, root, va, data@),
{
    let ghost m0 = m@;
    let mut i: usize = 0;
    proof {
        lemma_only_refl(m0, root);
    }
    while i < data.len()
        invariant
            m0 == old(m)@,
            i <= data@.len(),
            m@.wf(),
            m@.fa == m0.fa,
            space_wf(m@, root),
            space_only(m0, m@, root),
            pt::same_leaves(m0, m@, root),
            pt::same_tables(m0, m@, root),
            va + data@.len() <= VA_END,
            backed(m0, root, va, data@.len()),
            with_bytes(m0, m@, root, va, data@.take(i as int)),
        decreases data@.len() - i,
    {
        let ghost m1 = m@;
        let u: u64 = va + i as u64;
        proof {
            lemma_indices(u);
            assert(umem(m0, root, u) is Some);
            assert(pt::leaf(m1, root, pt::vpn_of(u, 2), pt::vpn_of(u, 1), pt::vpn_of(u, 0)) == pt::leaf(
                m0,
                root,
                pt::vpn_of(u, 2),
                pt::vpn_of(u, 1),
                pt::vpn_of(u, 0),
            ));
        }
        write_byte_to(m, root, u, data[i]);
        proof {
            lemma_only_trans(m0, m1, m@, root);
            pt::lemma_tables_trans(m0, m1, m@, root);
            assert forall|x: int, y: int, z: int| pt::ix(x) && pt::ix(y) && pt::ix(z) implies #[trigger] pt::leaf(
                m@,
                root,
                x,
                y,
                z,
            ) == pt::leaf(m0, root, x, y, z) by {
                assert(pt::leaf(m1, root, x, y, z) == pt::leaf(m0, root, x, y, z));
            }
            assert forall|w: u64| w < VA_END implies #[trigger] umem(m@, root, w) == if va <= w < va
                + data@.take(i + 1).len() {
                Some(data@.take(i + 1)[w - va])
            } else {
                umem(m0, root, w)
            } by {
                assert(umem(m1, root, w) == if va <= w < va + data@.take(i as int).len() {
                    Some(data@.take(i as int)[w - va])
                } else {
                    umem(m0, root, w)
                });
            }
        }
        i += 1;
    }
    assert(data@.take(i as int) =~= data@);
}

/// What the user sees after a segment is loaded: its bytes, and zeros on the
/// rest of the pages that had to be mapped for it.
pub open spec fn loaded(m: MemV, n: MemV, root: u64, va: u64, data: Seq<u8>) -> bool {
    let start = pt::page_down(va);
    let k = pt::span(va, data.len() as u64);
    forall|u: u64|
        u < VA_END ==> #[trigger] umem(n, root, u) == if va <= u < va + data.len() {
            Some(data[u - va])
        } else if umem(m, root, u) is None && in_pages(start, k, u) {
            Some(0u8)
        } else {
            umem(m, root, u)
        }
}

/// Maps the pages of a segment and copies its bytes in.
pub fn map_user(m: &mut Mem, root: u64, va: u64, data: &[u8], flags: u64, cg: usize) -> (ok: bool)
    requires
        old(m)@.wf(),
        space_wf(old(m)@, root),
        pt::perm(flags),
        va + data@.len() <= VA_END,
        user_range(old(m)@, root, pt::page_down(va), pt::span(va, data@.len() as u64)),
    ensures
        final(m)@.wf(),
        space_wf(final(m)@, root),
        space_only(old(m)@, final(m)@, root),
        frame::owners_kept(old(m)@, final(m)@),
        ok == (user_need(old(m)@, root, pt::page_down(va), pt::span(va, data@.len() as u64))
            <= old(m)@.fa.room(cg)),
        ok ==> {
            &&& final(m)@.fa == old(m)@.fa.grabs(
                cg,
                user_need(old(m)@, root, pt::page_down(va), pt::span(va, data@.len() as u64)),
            )
            &&& loaded(old(m)@, final(m)@, root, va, data@)
            &&& filled_leaves(
                old(m)@,
                final(m)@,
                root,
                pt::page_down(va),
                pt::span(va, data@.len() as u64),
                flags,
            )
            &&& pt::tables_seen(
                old(m)@,
                final(m)@,
                root,
                pt::page_down(va),
                pt::span(va, data@.len() as u64),
            )
        },
        !ok ==> {
            let k = fits(
                old(m)@,
                root,
                pt::page_down(va),
                pt::span(va, data@.len() as u64),
                old(m)@.fa.room(cg),
            );
            &&& k < pt::span(va, data@.len() as u64)
            &&& filled(old(m)@, final(m)@, root, pt::page_down(va), k)
            &&& filled_leaves(old(m)@, final(m)@, root, pt::page_down(va), k, flags)
        },
{
    let len: u64 = data.len() as u64;
    if !alloc_map_user(m, root, va, len, flags, cg) {
        return false;
    }
    let ghost m1 = m@;
    proof {
        assert forall|u: u64| va <= u < va + data@.len() implies #[trigger] umem(m1, root, u) is Some by {
            assert(in_pages(pt::page_down(va), pt::span(va, len), u));
        }
    }
    write_bytes_to(m, root, va, data);
    proof {
        lemma_only_trans(old(m)@, m1, m@, root);
        frame::lemma_owners_trans(old(m)@, m1, m@);
        assert forall|u: u64| u < VA_END implies #[trigger] umem(m@, root, u) == if va <= u < va
            + data@.len() {
            Some(data@[u - va])
        } else if umem(old(m)@, root, u) is None && in_pages(pt::page_down(va), pt::span(va, len), u) {
            Some(0u8)
        } else {
            umem(old(m)@, root, u)
        } by {
            assert(umem(m1, root, u) == if umem(old(m)@, root, u) is None && in_pages(
                pt::page_down(va),
                pt::span(va, len),
                u,
            ) {
                Some(0u8)
            } else {
                umem(old(m)@, root, u)
            });
        }
        assert forall|x: int, y: int, z: int| pt::ix(x) && pt::ix(y) && pt::ix(z) implies #[trigger] pt::leaf(
            m@,
            root,
            x,
            y,
            z,
        ) == pt::leaf(m1, root, x, y, z) by {}
        pt::lemma_seen_same(old(m)@, m1, m@, root, pt::page_down(va), pt::span(va, len));
    }
    true
}

/// A user byte lies in memory.
pub proof fn lemma_user_pa(m: MemV, root: u64, va: u64)
    requires
        m.wf(),
        space_wf(m, root),
        va < VA_END,
        umem(m, root, va) is Some,
    ensures
        ({
            let pa = (pt::pte_pa_of(pt::leaf_at(m, root, va)) + va % PAGE_SIZE) as u64;
            &&& pa_ok(pa)
            &&& pt::translation(m, root, va) == Some(pa)
        }),
{
    lemma_poke_user(m, root, va, 0);
}

} // verus!
