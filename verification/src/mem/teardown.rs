//! Tearing address spaces down, in whole or page by page.
use crate::mem::frame;
use crate::mem::frame::{Mem, MemV, NO_OWNER, PAGE_SIZE};
use crate::mem::pagetable as pt;
use crate::mem::pagetable::{PTE_RWX, PTE_U, PTE_V};
use crate::mem::space;
use crate::mem::space::VA_END;
use vstd::prelude::*;

verus! {

/// Entries in order: root entry first, then the middle, then the last level.
pub open spec fn pos(a: int, b: int, c: int) -> int {
    (a * 512 + b) * 512 + c
}

/// The space owns the page at these indices.
pub open spec fn opage(m: MemV, root: u64, a: int, b: int, c: int) -> bool {
    pt::ix(a) && pt::ix(b) && pt::ix(c) && pt::owned_leaf(pt::leaf(m, root, a, b, c))
}

pub open spec fn page_gone(m: MemV, root: u64, t: u64, p: int) -> bool {
    exists|a: int, b: int, c: int| #[trigger]
        opage(m, root, a, b, c) && space::upa(m, root, a, b, c) == t && pos(a, b, c) < p
}

pub open spec fn l0_gone(m: MemV, root: u64, t: u64, q: int) -> bool {
    exists|a: int, b: int|
        pt::ix(a) && pt::ix(b) && #[trigger] pt::has0(m, root, a, b) && pt::l0_of(m, root, a, b) == t && a
            * 512 + b < q
}

pub open spec fn l1_gone(m: MemV, root: u64, t: u64, a: int) -> bool {
    exists|x: int| pt::ix(x) && #[trigger] pt::has1(m, root, x) && pt::l1_of(m, root, x) == t && x < a
}

/// Frames a torn-down space gives back: its tables, and the pages it owns.
pub open spec fn gives_back(m: MemV, root: u64, t: u64) -> bool {
    pt::is_table(m, root, t) || exists|a: int, b: int, c: int| #[trigger]
        opage(m, root, a, b, c) && space::upa(m, root, a, b, c) == t
}

pub open spec fn gone(m: MemV, root: u64, t: u64, a: int, q: int, p: int) -> bool {
    page_gone(m, root, t, p) || l0_gone(m, root, t, q) || l1_gone(m, root, t, a)
}

/// Memory once the frames `back` selects are given back: they are free and
/// charged to nobody; the rest is as it was.
pub open spec fn after_free(m: MemV, n: MemV, back: spec_fn(u64) -> bool) -> bool {
    &&& n.wf()
    &&& n.fa.cur == m.fa.cur
    &&& n.fa.lim == m.fa.lim
    &&& forall|t: u64| #[trigger] n.free(t) <==> m.free(t) || back(t)
    &&& forall|t: u64|
        frame::in_ram(t) && !back(t) ==> #[trigger] n.ram[frame::fi(t)] == m.ram[frame::fi(t)]
            && n.fa.owner[frame::fi(t)] == m.fa.owner[frame::fi(t)]
    &&& forall|t: u64| #[trigger] back(t) ==> n.fa.owner[frame::fi(t)] == NO_OWNER
}

proof fn lemma_free_one(m0: MemV, m: MemV, back: spec_fn(u64) -> bool, t: u64, next: spec_fn(u64) -> bool)
    requires
        m0.wf(),
        after_free(m0, m, back),
        m0.live(t),
        !back(t),
        forall|u: u64| #[trigger] next(u) <==> back(u) || u == t,
        forall|u: u64| #[trigger] back(u) ==> frame::in_ram(u),
    ensures
        m.live(t),
        after_free(m0, m.dealloc(t), next),
        forall|u: u64| #[trigger] next(u) ==> frame::in_ram(u),
{
    assert(!m.free(t));
    frame::law_dealloc(m, t);
    let n = m.dealloc(t);
    assert forall|u: u64| #[trigger] n.free(u) <==> m0.free(u) || next(u) by {
        assert(m.free(u) <==> m0.free(u) || back(u));
        assert(next(u) <==> back(u) || u == t);
    }
    assert forall|u: u64| frame::in_ram(u) && !next(u) implies #[trigger] n.ram[frame::fi(u)]
        == m0.ram[frame::fi(u)] && n.fa.owner[frame::fi(u)] == m0.fa.owner[frame::fi(u)] by {
        assert(!back(u) && u != t);
        pt::lemma_fi_inj(u, t);
        assert(m.ram[frame::fi(u)] == m0.ram[frame::fi(u)]);
    }
    assert forall|u: u64| #[trigger] next(u) implies n.fa.owner[frame::fi(u)] == NO_OWNER && frame::in_ram(
        u,
    ) by {
        if u != t {
            assert(back(u));
            pt::lemma_fi_inj(u, t);
        } else {
            pt::lemma_fi_inj(t, t);
        }
    }
}

proof fn lemma_gone_ram(m: MemV, root: u64, t: u64, a: int, q: int, p: int)
    requires
        space::space_wf(m, root),
        gone(m, root, t, a, q, p),
    ensures
        m.live(t),
        t != root,
{
    if page_gone(m, root, t, p) {
        let (x, y, z) = choose|x: int, y: int, z: int| #[trigger]
            opage(m, root, x, y, z) && space::upa(m, root, x, y, z) == t && pos(x, y, z) < p;
        assert(space::upage(m, root, x, y, z));
        assert(pt::is_table(m, root, root));
    } else if l0_gone(m, root, t, q) {
    } else {
    }
}

/// Positions determine their indices.
proof fn lemma_pos_inj(a: int, b: int, c: int, x: int, y: int, z: int)
    requires
        pt::ix(b),
        pt::ix(c),
        pt::ix(y),
        pt::ix(z),
    ensures
        pos(a, b, c) == pos(x, y, z) ==> a == x && b == y && c == z,
        a * 512 + b == x * 512 + y ==> a == x && b == y,
        pos(a, b, c) < (x * 512 + y) * 512 <==> a * 512 + b < x * 512 + y,
{
}

/// The next page given back is not among those given back already.
proof fn lemma_page_not_gone(m: MemV, root: u64, a: int, b: int, c: int)
    requires
        space::space_wf(m, root),
        opage(m, root, a, b, c),
    ensures
        !gone(m, root, space::upa(m, root, a, b, c), a, a * 512 + b, pos(a, b, c)),
        forall|t: u64|
            gone(m, root, t, a, a * 512 + b, pos(a, b, c) + 1) <==> #[trigger] gone(
                m,
                root,
                t,
                a,
                a * 512 + b,
                pos(a, b, c),
            ) || t == space::upa(m, root, a, b, c),
{
    let t = space::upa(m, root, a, b, c);
    assert(space::upage(m, root, a, b, c));
    if page_gone(m, root, t, pos(a, b, c)) {
        let (x, y, z) = choose|x: int, y: int, z: int| #[trigger]
            opage(m, root, x, y, z) && space::upa(m, root, x, y, z) == t && pos(x, y, z) < pos(a, b, c);
        assert(space::upage(m, root, x, y, z));
    }
    assert(!pt::is_table(m, root, t));
    assert(!l0_gone(m, root, t, a * 512 + b));
    assert(!l1_gone(m, root, t, a));
    assert forall|u: u64| page_gone(m, root, u, pos(a, b, c) + 1) <==> #[trigger] page_gone(
        m,
        root,
        u,
        pos(a, b, c),
    ) || u == t by {
        if page_gone(m, root, u, pos(a, b, c) + 1) {
            let (x, y, z) = choose|x: int, y: int, z: int| #[trigger]
                opage(m, root, x, y, z) && space::upa(m, root, x, y, z) == u && pos(x, y, z) < pos(
                    a,
                    b,
                    c,
                ) + 1;
            if pos(x, y, z) == pos(a, b, c) {
                lemma_pos_inj(a, b, c, x, y, z);
            } else {
                assert(page_gone(m, root, u, pos(a, b, c)));
            }
        }
        if page_gone(m, root, u, pos(a, b, c)) {
            let (x, y, z) = choose|x: int, y: int, z: int| #[trigger]
                opage(m, root, x, y, z) && space::upa(m, root, x, y, z) == u && pos(x, y, z) < pos(a, b, c);
            assert(opage(m, root, x, y, z) && pos(x, y, z) < pos(a, b, c) + 1);
        }
    }
    assert forall|u: u64| gone(m, root, u, a, a * 512 + b, pos(a, b, c) + 1) <==> #[trigger] gone(
        m,
        root,
        u,
        a,
        a * 512 + b,
        pos(a, b, c),
    ) || u == t by {
        assert(page_gone(m, root, u, pos(a, b, c) + 1) <==> page_gone(m, root, u, pos(a, b, c)) || u == t);
    }
}

/// Without an owned page at a position, passing it gives nothing back.
proof fn lemma_pass_page(m: MemV, root: u64, a: int, b: int, c: int)
    requires
        pt::ix(a),
        pt::ix(b),
        pt::ix(c),
        !opage(m, root, a, b, c),
    ensures
        forall|t: u64|
            gone(m, root, t, a, a * 512 + b, pos(a, b, c) + 1) <==> #[trigger] gone(
                m,
                root,
                t,
                a,
                a * 512 + b,
                pos(a, b, c),
            ),
{
    assert forall|t: u64| gone(m, root, t, a, a * 512 + b, pos(a, b, c) + 1) <==> #[trigger] gone(
        m,
        root,
        t,
        a,
        a * 512 + b,
        pos(a, b, c),
    ) by {
        if page_gone(m, root, t, pos(a, b, c) + 1) {
            let (x, y, z) = choose|x: int, y: int, z: int| #[trigger]
                opage(m, root, x, y, z) && space::upa(m, root, x, y, z) == t && pos(x, y, z) < pos(
                    a,
                    b,
                    c,
                ) + 1;
            lemma_pos_inj(a, b, c, x, y, z);
            assert(page_gone(m, root, t, pos(a, b, c)));
        }
        if page_gone(m, root, t, pos(a, b, c)) {
            let (x, y, z) = choose|x: int, y: int, z: int| #[trigger]
                opage(m, root, x, y, z) && space::upa(m, root, x, y, z) == t && pos(x, y, z) < pos(a, b, c);
            assert(opage(m, root, x, y, z) && pos(x, y, z) < pos(a, b, c) + 1);
        }
    }
}

/// The last-level table at `(a, b)`, once its pages are through.
proof fn lemma_l0_not_gone(m: MemV, root: u64, a: int, b: int)
    requires
        space::space_wf(m, root),
        pt::ix(a),
        pt::ix(b),
        pt::has0(m, root, a, b),
    ensures
        !gone(m, root, pt::l0_of(m, root, a, b), a, a * 512 + b, (a * 512 + b) * 512 + 512),
        forall|t: u64|
            gone(m, root, t, a, a * 512 + b + 1, (a * 512 + b) * 512 + 512) <==> #[trigger] gone(
                m,
                root,
                t,
                a,
                a * 512 + b,
                (a * 512 + b) * 512 + 512,
            ) || t == pt::l0_of(m, root, a, b),
{
    let q = a * 512 + b;
    let p = q * 512 + 512;
    let t = pt::l0_of(m, root, a, b);
    assert(pt::is_table(m, root, t));
    if page_gone(m, root, t, p) {
        let (x, y, z) = choose|x: int, y: int, z: int| #[trigger]
            opage(m, root, x, y, z) && space::upa(m, root, x, y, z) == t && pos(x, y, z) < p;
        assert(space::upage(m, root, x, y, z));
    }
    assert forall|u: u64| l0_gone(m, root, u, q + 1) <==> #[trigger] l0_gone(m, root, u, q) || u == t by {
        if l0_gone(m, root, u, q + 1) {
            let (x, y) = choose|x: int, y: int|
                pt::ix(x) && pt::ix(y) && #[trigger] pt::has0(m, root, x, y) && pt::l0_of(m, root, x, y) == u
                    && x * 512 + y < q + 1;
            lemma_pos_inj(a, b, 0, x, y, 0);
            if x * 512 + y < q {
                assert(l0_gone(m, root, u, q));
            }
        }
        if l0_gone(m, root, u, q) {
            let (x, y) = choose|x: int, y: int|
                pt::ix(x) && pt::ix(y) && #[trigger] pt::has0(m, root, x, y) && pt::l0_of(m, root, x, y) == u
                    && x * 512 + y < q;
            assert(pt::has0(m, root, x, y) && x * 512 + y < q + 1);
        }
    }
    assert forall|u: u64| gone(m, root, u, a, q + 1, p) <==> #[trigger] gone(m, root, u, a, q, p) || u == t by {
        assert(l0_gone(m, root, u, q + 1) <==> l0_gone(m, root, u, q) || u == t);
    }
}

/// Where there is no last-level table, nothing is given back.
proof fn lemma_pass_l0(m: MemV, root: u64, a: int, b: int)
    requires
        pt::ix(a),
        pt::ix(b),
        !pt::has0(m, root, a, b),
    ensures
        forall|t: u64|
            gone(m, root, t, a, a * 512 + b + 1, (a * 512 + b) * 512 + 512) <==> #[trigger] gone(
                m,
                root,
                t,
                a,
                a * 512 + b,
                (a * 512 + b) * 512,
            ),
{
    let q = a * 512 + b;
    pt::lemma_flag_consts();
    assert forall|t: u64| gone(m, root, t, a, q + 1, q * 512 + 512) <==> #[trigger] gone(
        m,
        root,
        t,
        a,
        q,
        q * 512,
    ) by {
        if page_gone(m, root, t, q * 512 + 512) {
            let (x, y, z) = choose|x: int, y: int, z: int| #[trigger]
                opage(m, root, x, y, z) && space::upa(m, root, x, y, z) == t && pos(x, y, z) < q * 512 + 512;
            if pos(x, y, z) >= q * 512 {
                assert(x * 512 + y == q);
                lemma_pos_inj(a, b, 0, x, y, 0);
            }
            assert(page_gone(m, root, t, q * 512));
        }
        if page_gone(m, root, t, q * 512) {
            let (x, y, z) = choose|x: int, y: int, z: int| #[trigger]
                opage(m, root, x, y, z) && space::upa(m, root, x, y, z) == t && pos(x, y, z) < q * 512;
            assert(opage(m, root, x, y, z) && pos(x, y, z) < q * 512 + 512);
        }
        if l0_gone(m, root, t, q + 1) {
            let (x, y) = choose|x: int, y: int|
                pt::ix(x) && pt::ix(y) && #[trigger] pt::has0(m, root, x, y) && pt::l0_of(m, root, x, y) == t
                    && x * 512 + y < q + 1;
            lemma_pos_inj(a, b, 0, x, y, 0);
            assert(l0_gone(m, root, t, q));
        }
        if l0_gone(m, root, t, q) {
            let (x, y) = choose|x: int, y: int|
                pt::ix(x) && pt::ix(y) && #[trigger] pt::has0(m, root, x, y) && pt::l0_of(m, root, x, y) == t
                    && x * 512 + y < q;
            assert(pt::has0(m, root, x, y) && x * 512 + y < q + 1);
        }
    }
}

/// The middle table at `a`, once all below it is through.
proof fn lemma_l1_not_gone(m: MemV, root: u64, a: int)
    requires
        space::space_wf(m, root),
        pt::ix(a),
        pt::has1(m, root, a),
    ensures
        !gone(m, root, pt::l1_of(m, root, a), a, (a + 1) * 512, (a + 1) * 512 * 512),
        forall|t: u64|
            gone(m, root, t, a + 1, (a + 1) * 512, (a + 1) * 512 * 512) <==> #[trigger] gone(
                m,
                root,
                t,
                a,
                (a + 1) * 512,
                (a + 1) * 512 * 512,
            ) || t == pt::l1_of(m, root, a),
{
    let q = (a + 1) * 512;
    let p = q * 512;
    let t = pt::l1_of(m, root, a);
    assert(pt::is_table(m, root, t));
    if page_gone(m, root, t, p) {
        let (x, y, z) = choose|x: int, y: int, z: int| #[trigger]
            opage(m, root, x, y, z) && space::upa(m, root, x, y, z) == t && pos(x, y, z) < p;
        assert(space::upage(m, root, x, y, z));
    }
    assert(!l0_gone(m, root, t, q));
    assert forall|u: u64| l1_gone(m, root, u, a + 1) <==> #[trigger] l1_gone(m, root, u, a) || u == t by {
        if l1_gone(m, root, u, a + 1) {
            let x = choose|x: int|
                pt::ix(x) && #[trigger] pt::has1(m, root, x) && pt::l1_of(m, root, x) == u && x < a + 1;
            if x < a {
                assert(l1_gone(m, root, u, a));
            }
        }
        if l1_gone(m, root, u, a) {
            let x = choose|x: int|
                pt::ix(x) && #[trigger] pt::has1(m, root, x) && pt::l1_of(m, root, x) == u && x < a;
            assert(pt::has1(m, root, x) && x < a + 1);
        }
    }
    assert forall|u: u64| gone(m, root, u, a + 1, q, p) <==> #[trigger] gone(m, root, u, a, q, p) || u == t by {
        assert(l1_gone(m, root, u, a + 1) <==> l1_gone(m, root, u, a) || u == t);
    }
}

/// Where the root has no entry, nothing is given back.
proof fn lemma_pass_l1(m: MemV, root: u64, a: int)
    requires
        pt::ix(a),
        !pt::has1(m, root, a),
    ensures
        forall|t: u64|
            gone(m, root, t, a + 1, (a + 1) * 512, (a + 1) * 512 * 512) <==> #[trigger] gone(
                m,
                root,
                t,
                a,
                a * 512,
                a * 512 * 512,
            ),
{
    pt::lemma_flag_consts();
    assert forall|t: u64| gone(m, root, t, a + 1, (a + 1) * 512, (a + 1) * 512 * 512) <==> #[trigger] gone(
        m,
        root,
        t,
        a,
        a * 512,
        a * 512 * 512,
    ) by {
        if page_gone(m, root, t, (a + 1) * 512 * 512) {
            let (x, y, z) = choose|x: int, y: int, z: int| #[trigger]
                opage(m, root, x, y, z) && space::upa(m, root, x, y, z) == t && pos(x, y, z) < (a + 1) * 512
                    * 512;
            assert(pt::has0(m, root, x, y));
            assert(x != a);
            assert(page_gone(m, root, t, a * 512 * 512));
        }
        if page_gone(m, root, t, a * 512 * 512) {
            let (x, y, z) = choose|x: int, y: int, z: int| #[trigger]
                opage(m, root, x, y, z) && space::upa(m, root, x, y, z) == t && pos(x, y, z) < a * 512 * 512;
            assert(opage(m, root, x, y, z) && pos(x, y, z) < (a + 1) * 512 * 512);
        }
        if l0_gone(m, root, t, (a + 1) * 512) {
            let (x, y) = choose|x: int, y: int|
                pt::ix(x) && pt::ix(y) && #[trigger] pt::has0(m, root, x, y) && pt::l0_of(m, root, x, y) == t
                    && x * 512 + y < (a + 1) * 512;
            assert(x != a);
            assert(l0_gone(m, root, t, a * 512));
        }
        if l0_gone(m, root, t, a * 512) {
            let (x, y) = choose|x: int, y: int|
                pt::ix(x) && pt::ix(y) && #[trigger] pt::has0(m, root, x, y) && pt::l0_of(m, root, x, y) == t
                    && x * 512 + y < a * 512;
            assert(pt::has0(m, root, x, y) && x * 512 + y < (a + 1) * 512);
        }
        if l1_gone(m, root, t, a + 1) {
            let x = choose|x: int|
                pt::ix(x) && #[trigger] pt::has1(m, root, x) && pt::l1_of(m, root, x) == t && x < a + 1;
            assert(l1_gone(m, root, t, a));
        }
        if l1_gone(m, root, t, a) {
            let x = choose|x: int|
                pt::ix(x) && #[trigger] pt::has1(m, root, x) && pt::l1_of(m, root, x) == t && x < a;
            assert(pt::has1(m, root, x) && x < a + 1);
        }
    }
}

/// When all is through, what was given back is the whole space but the root.
proof fn lemma_all_gone(m: MemV, root: u64)
    requires
        space::space_wf(m, root),
    ensures
        forall|t: u64|
            #[trigger] gives_back(m, root, t) <==> gone(m, root, t, 512, 0x4_0000, 0x800_0000) || t
                == root,
{
    assert forall|t: u64| #[trigger] gives_back(m, root, t) <==> gone(
        m,
        root,
        t,
        512,
        0x4_0000,
        0x800_0000,
    ) || t == root by {
        if gives_back(m, root, t) && t != root {
            if pt::is_table(m, root, t) {
                if exists|a: int| pt::ix(a) && #[trigger] pt::has1(m, root, a) && pt::l1_of(m, root, a) == t {
                    assert(l1_gone(m, root, t, 512));
                } else {
                    let (x, y) = choose|x: int, y: int|
                        pt::ix(x) && pt::ix(y) && #[trigger] pt::has0(m, root, x, y) && pt::l0_of(
                            m,
                            root,
                            x,
                            y,
                        ) == t;
                    assert(x * 512 + y < 0x4_0000);
                    assert(l0_gone(m, root, t, 0x4_0000));
                }
            } else {
                let (x, y, z) = choose|x: int, y: int, z: int| #[trigger]
                    opage(m, root, x, y, z) && space::upa(m, root, x, y, z) == t;
                assert(pos(x, y, z) < 0x800_0000);
                assert(page_gone(m, root, t, 0x800_0000));
            }
        }
    }
}

proof fn lemma_after_same(m0: MemV, m: MemV, b1: spec_fn(u64) -> bool, b2: spec_fn(u64) -> bool)
    requires
        after_free(m0, m, b1),
        forall|t: u64| #[trigger] b1(t) == b2(t),
    ensures
        after_free(m0, m, b2),
{
    assert forall|t: u64| #[trigger] m.free(t) <==> m0.free(t) || b2(t) by {
        assert(b1(t) == b2(t));
    }
    assert forall|t: u64| frame::in_ram(t) && !b2(t) implies #[trigger] m.ram[frame::fi(t)]
        == m0.ram[frame::fi(t)] && m.fa.owner[frame::fi(t)] == m0.fa.owner[frame::fi(t)] by {
        assert(b1(t) == b2(t));
        assert(!b1(t));
        assert(m.ram[frame::fi(t)] == m0.ram[frame::fi(t)]);
    }
    assert forall|t: u64| #[trigger] b2(t) implies m.fa.owner[frame::fi(t)] == NO_OWNER by {
        assert(b1(t) == b2(t));
    }
}

pub open spec fn gone_set(m: MemV, root: u64, a: int, q: int, p: int) -> spec_fn(u64) -> bool {
    |t: u64| gone(m, root, t, a, q, p)
}

proof fn lemma_step(m0: MemV, m: MemV, root: u64, a: int, q: int, p: int, a2: int, q2: int, p2: int, t: u64)
    requires
        m0.wf(),
        space::space_wf(m0, root),
        after_free(m0, m, gone_set(m0, root, a, q, p)),
        m0.live(t),
        !gone(m0, root, t, a, q, p),
        forall|u: u64| gone(m0, root, u, a2, q2, p2) <==> #[trigger] gone(m0, root, u, a, q, p) || u == t,
    ensures
        m.live(t),
        after_free(m0, m.dealloc(t), gone_set(m0, root, a2, q2, p2)),
{
    let b1 = gone_set(m0, root, a, q, p);
    let b2 = gone_set(m0, root, a2, q2, p2);
    assert forall|u: u64| #[trigger] b2(u) <==> b1(u) || u == t by {
        assert(gone(m0, root, u, a2, q2, p2) <==> gone(m0, root, u, a, q, p) || u == t);
    }
    assert forall|u: u64| #[trigger] b1(u) implies frame::in_ram(u) by {
        lemma_gone_ram(m0, root, u, a, q, p);
    }
    lemma_free_one(m0, m, b1, t, b2);
}

proof fn lemma_pass(m0: MemV, m: MemV, root: u64, a: int, q: int, p: int, a2: int, q2: int, p2: int)
    requires
        after_free(m0, m, gone_set(m0, root, a, q, p)),
        forall|u: u64| gone(m0, root, u, a2, q2, p2) <==> #[trigger] gone(m0, root, u, a, q, p),
    ensures
        after_free(m0, m, gone_set(m0, root, a2, q2, p2)),
{
    let b1 = gone_set(m0, root, a, q, p);
    let b2 = gone_set(m0, root, a2, q2, p2);
    assert forall|u: u64| #[trigger] b1(u) == b2(u) by {
        assert(gone(m0, root, u, a2, q2, p2) <==> gone(m0, root, u, a, q, p));
    }
    lemma_after_same(m0, m, b1, b2);
}

/// A table not given back yet still reads as it did.
proof fn lemma_still(m0: MemV, m: MemV, root: u64, a: int, q: int, p: int, t: u64)
    requires
        after_free(m0, m, gone_set(m0, root, a, q, p)),
        !gone(m0, root, t, a, q, p),
        frame::in_ram(t),
    ensures
        m.ram[frame::fi(t)] == m0.ram[frame::fi(t)],
{
    let b = gone_set(m0, root, a, q, p);
    assert(!b(t));
}

/// Gives back everything a dead address space owns: its user pages, its
/// tables, its root. Pages mapped without the user bit are borrowed and stay.
#[verifier::spinoff_prover]
#[verifier::rlimit(60)]
pub fn free_user_space(m: &mut Mem, root: u64)
    requires
        old(m)@.wf(),
        space::space_wf(old(m)@, root),
    ensures
        after_free(old(m)@, final(m)@, |t: u64| gives_back(old(m)@, root, t)),
{
    let ghost m0 = m@;
    let mut a: u64 = 0;
    proof {
        assert forall|t: u64| !(#[trigger] gone(m0, root, t, 0, 0, 0)) by {}
        assert(after_free(m0, m0, gone_set(m0, root, 0, 0, 0)));
    }
    while a < 512
        invariant
            m0 == old(m)@,
            m0.wf(),
            space::space_wf(m0, root),
            a <= 512,
            after_free(m0, m@, gone_set(m0, root, a as int, a * 512, a * 512 * 512)),
        decreases 512 - a,
    {
        let ghost ai = a as int;
        proof {
            if gone(m0, root, root, ai, ai * 512, ai * 512 * 512) {
                lemma_gone_ram(m0, root, root, ai, ai * 512, ai * 512 * 512);
            }
            lemma_still(m0, m@, root, ai, ai * 512, ai * 512 * 512, root);
        }
        let e2 = pt::rd_word(m, root, a);
        if e2 & PTE_V != 0 {
            assert(pt::has1(m0, root, ai));
            let l1 = pt::pte_pa(e2);
            let mut b: u64 = 0;
            while b < 512
                invariant
                    m0.wf(),
                    space::space_wf(m0, root),
                    a < 512,
                    ai == a,
                    pt::has1(m0, root, ai),
                    l1 == pt::l1_of(m0, root, ai),
                    b <= 512,
                    after_free(m0, m@, gone_set(m0, root, ai, ai * 512 + b, (ai * 512 + b) * 512)),
                decreases 512 - b,
            {
                let ghost bi = b as int;
                let ghost q = ai * 512 + bi;
                proof {
                    lemma_l1_not_gone(m0, root, ai);
                    lemma_gone_mono(m0, root, l1, ai, q, q * 512, (ai + 1) * 512, (ai + 1) * 512 * 512);
                    lemma_still(m0, m@, root, ai, q, q * 512, l1);
                }
                let e1 = pt::rd_word(m, l1, b);
                if e1 & PTE_V != 0 {
                    assert(pt::has0(m0, root, ai, bi));
                    let l0 = pt::pte_pa(e1);
                    let mut c: u64 = 0;
                    while c < 512
                        invariant
                            m0.wf(),
                            space::space_wf(m0, root),
                            a < 512,
                            b < 512,
                            ai == a,
                            bi == b,
                            q == ai * 512 + bi,
                            pt::has0(m0, root, ai, bi),
                            l0 == pt::l0_of(m0, root, ai, bi),
                            c <= 512,
                            after_free(m0, m@, gone_set(m0, root, ai, q, q * 512 + c)),
                        decreases 512 - c,
                    {
                        let ghost ci = c as int;
                        proof {
                            lemma_l0_not_gone(m0, root, ai, bi);
                            lemma_gone_mono(m0, root, l0, ai, q, q * 512 + ci, q, q * 512 + 512);
                            lemma_still(m0, m@, root, ai, q, q * 512 + ci, l0);
                        }
                        let e0 = pt::rd_word(m, l0, c);
                        assert(e0 == pt::leaf(m0, root, ai, bi, ci));
                        if e0 & PTE_V != 0 && e0 & PTE_U != 0 && e0 & PTE_RWX != 0 {
                            let pa = pt::pte_pa(e0);
                            proof {
                                assert(opage(m0, root, ai, bi, ci));
                                assert(space::upage(m0, root, ai, bi, ci));
                                lemma_page_not_gone(m0, root, ai, bi, ci);
                                lemma_step(
                                    m0,
                                    m@,
                                    root,
                                    ai,
                                    q,
                                    q * 512 + ci,
                                    ai,
                                    q,
                                    q * 512 + ci + 1,
                                    pa,
                                );
                            }
                            frame::dealloc_frame(m, pa);
                        } else {
                            proof {
                                lemma_pass_page(m0, root, ai, bi, ci);
                                lemma_pass(
                                    m0,
                                    m@,
                                    root,
                                    ai,
                                    q,
                                    q * 512 + ci,
                                    ai,
                                    q,
                                    q * 512 + ci + 1,
                                );
                            }
                        }
                        c = c + 1;
                    }
                    proof {
                        lemma_l0_not_gone(m0, root, ai, bi);
                        lemma_step(
                            m0,
                            m@,
                            root,
                            ai,
                            q,
                            q * 512 + 512,
                            ai,
                            q + 1,
                            q * 512 + 512,
                            l0,
                        );
                    }
                    frame::dealloc_frame(m, l0);
                } else {
                    proof {
                        lemma_pass_l0(m0, root, ai, bi);
                        lemma_pass(m0, m@, root, ai, q, q * 512, ai, q + 1, q * 512 + 512);
                    }
                }
                b = b + 1;
                assert((ai * 512 + b) * 512 == q * 512 + 512);
            }
            proof {
                lemma_l1_not_gone(m0, root, ai);
                lemma_step(
                    m0,
                    m@,
                    root,
                    ai,
                    (ai + 1) * 512,
                    (ai + 1) * 512 * 512,
                    ai + 1,
                    (ai + 1) * 512,
                    (ai + 1) * 512 * 512,
                    l1,
                );
            }
            frame::dealloc_frame(m, l1);
        } else {
            proof {
                lemma_pass_l1(m0, root, ai);
                lemma_pass(
                    m0,
                    m@,
                    root,
                    ai,
                    ai * 512,
                    ai * 512 * 512,
                    ai + 1,
                    (ai + 1) * 512,
                    (ai + 1) * 512 * 512,
                );
            }
        }
        a = a + 1;
    }
    proof {
        let b1 = gone_set(m0, root, 512, 0x4_0000, 0x800_0000);
        let b2 = |t: u64| gives_back(m0, root, t);
        lemma_all_gone(m0, root);
        assert(!b1(root)) by {
            if b1(root) {
                lemma_gone_ram(m0, root, root, 512, 0x4_0000, 0x800_0000);
            }
        }
        assert forall|u: u64| #[trigger] b1(u) implies frame::in_ram(u) by {
            lemma_gone_ram(m0, root, u, 512, 0x4_0000, 0x800_0000);
        }
        assert forall|u: u64| #[trigger] b2(u) <==> b1(u) || u == root by {
            assert(gives_back(m0, root, u) <==> gone(m0, root, u, 512, 0x4_0000, 0x800_0000) || u
                == root);
        }
        lemma_free_one(m0, m@, b1, root, b2);
    }
    frame::dealloc_frame(m, root);
}

/// Less is given back at an earlier point.
proof fn lemma_gone_mono(m: MemV, root: u64, t: u64, a: int, q: int, p: int, q2: int, p2: int)
    requires
        q <= q2,
        p <= p2,
        !gone(m, root, t, a, q2, p2),
    ensures
        !gone(m, root, t, a, q, p),
{
    if page_gone(m, root, t, p) {
        let (x, y, z) = choose|x: int, y: int, z: int| #[trigger]
            opage(m, root, x, y, z) && space::upa(m, root, x, y, z) == t && pos(x, y, z) < p;
        assert(page_gone(m, root, t, p2));
    }
    if l0_gone(m, root, t, q) {
        let (x, y) = choose|x: int, y: int|
            pt::ix(x) && pt::ix(y) && #[trigger] pt::has0(m, root, x, y) && pt::l0_of(m, root, x, y) == t
                && x * 512 + y < q;
        assert(l0_gone(m, root, t, q2));
    }
}

// ---- page by page ----

/// An owned page of the range lies in this frame.
pub open spec fn range_owns(m: MemV, root: u64, start: u64, n: nat, t: u64) -> bool {
    exists|i: nat|
        i < n && pt::owned_leaf(pt::leaf_at(m, root, #[trigger] pt::page_va(start, i))) && pt::pte_pa_of(
            pt::leaf_at(m, root, pt::page_va(start, i)),
        ) == t
}

/// What the user sees once the range's pages are gone.
pub open spec fn cut(m: MemV, n: MemV, root: u64, start: u64, k: nat) -> bool {
    forall|u: u64|
        u < VA_END ==> #[trigger] space::umem(n, root, u) == if space::in_pages(start, k, u) {
            None
        } else {
            space::umem(m, root, u)
        }
}

/// Entries once the range's pages are gone.
pub open spec fn cut_leaves(m: MemV, n: MemV, root: u64, start: u64, k: nat) -> bool {
    forall|x: int, y: int, z: int|
        pt::ix(x) && pt::ix(y) && pt::ix(z) ==> #[trigger] pt::leaf(n, root, x, y, z) == if pt::page_in(
            start,
            k,
            x,
            y,
            z,
        ) && pt::owned_leaf(pt::leaf(m, root, x, y, z)) {
            0
        } else {
            pt::leaf(m, root, x, y, z)
        }
}

/// One page unmapped and its frame given back.
#[verifier::spinoff_prover]
#[verifier::rlimit(60)]
proof fn lemma_drop_page(m1: MemV, m2: MemV, root: u64, va: u64)
    requires
        m1.wf(),
        space::space_wf(m1, root),
        va < VA_END,
        pt::owned_leaf(pt::leaf_at(m1, root, va)),
        m2.wf(),
        m2.fa == m1.fa,
        pt::tables_wf(m2, root),
        pt::only_grows(m1, m2, root),
        pt::leaves_but(m1, m2, root, pt::vpn_of(va, 2), pt::vpn_of(va, 1), pt::vpn_of(va, 0), 0),
    ensures
        ({
            let pa = pt::pte_pa_of(pt::leaf_at(m1, root, va));
            let m3 = m2.dealloc(pa);
            &&& m2.live(pa)
            &&& m3.wf()
            &&& space::space_wf(m3, root)
            &&& pt::leaves_but(
                m1,
                m3,
                root,
                pt::vpn_of(va, 2),
                pt::vpn_of(va, 1),
                pt::vpn_of(va, 0),
                0,
            )
            &&& forall|u: u64|
                u < VA_END ==> #[trigger] space::umem(m3, root, u) == if space::same_page(u, va) {
                    None
                } else {
                    space::umem(m1, root, u)
                }
            &&& forall|t: u64| #[trigger] m3.free(t) <==> m1.free(t) || t == pa
            &&& forall|t: u64|
                frame::in_ram(t) && !space::owns(m1, root, t) && !m1.free(t) ==> #[trigger] m3.ram[frame::fi(
                    t,
                )] == m1.ram[frame::fi(t)]
            &&& forall|t: u64| #[trigger] space::owns(m3, root, t) ==> space::owns(m1, root, t)
        }),
{
    space::lemma_indices(va);
    let (x0, y0, z0) = (pt::vpn_of(va, 2), pt::vpn_of(va, 1), pt::vpn_of(va, 0));
    let pa = space::upa(m1, root, x0, y0, z0);
    let m3 = m2.dealloc(pa);
    assert(space::upage(m1, root, x0, y0, z0));
    assert(space::owns(m1, root, pa));
    pt::lemma_flag_consts();
    assert forall|x: int, y: int, z: int| #[trigger] space::upage(m2, root, x, y, z) implies space::upage(
        m1,
        root,
        x,
        y,
        z,
    ) && pt::leaf(m2, root, x, y, z) == pt::leaf(m1, root, x, y, z) && !(x == x0 && y == y0 && z == z0) by {
        assert(pt::leaf(m2, root, x, y, z) == if x == x0 && y == y0 && z == z0 {
            0
        } else {
            pt::leaf(m1, root, x, y, z)
        });
    }
    crate::mem::copy::lemma_grow_wf(m1, m2, root);
    assert(m2.live(pa));
    assert(!space::owns(m2, root, pa)) by {
        if pt::is_table(m2, root, pa) {
            assert(pt::is_table(m1, root, pa) || m1.free(pa));
        } else if space::owns(m2, root, pa) {
            let (x, y, z) = choose|x: int, y: int, z: int| #[trigger]
                space::upage(m2, root, x, y, z) && space::upa(m2, root, x, y, z) == pa;
            assert(space::upage(m1, root, x, y, z));
        }
    }
    frame::law_dealloc(m2, pa);
    assert forall|t: u64| #[trigger] space::owns(m2, root, t) implies m3.ram[frame::fi(t)]
        == m2.ram[frame::fi(t)] && !m3.free(t) by {
        space::lemma_owned_live(m2, root, t);
        pt::lemma_fi_inj(t, pa);
    }
    space::lemma_space_kept(m2, m3, root);
    assert forall|t: u64| #[trigger] m3.free(t) <==> m1.free(t) || t == pa by {
        assert(m2.free(t) == m1.free(t));
    }
    assert forall|t: u64| frame::in_ram(t) && !space::owns(m1, root, t) && !m1.free(t) implies #[trigger] m3.ram[frame::fi(
        t,
    )] == m1.ram[frame::fi(t)] by {
        pt::lemma_fi_inj(t, pa);
        assert(m2.ram[frame::fi(t)] == m1.ram[frame::fi(t)]);
    }
    assert forall|t: u64| #[trigger] space::owns(m3, root, t) implies space::owns(m1, root, t) by {
        assert(space::owns(m2, root, t));
        if m1.free(t) {
            space::lemma_owned_live(m2, root, t);
        }
        assert(space::owns(m1, root, t) || m1.free(t));
    }
    assert forall|x: int, y: int, z: int| pt::ix(x) && pt::ix(y) && pt::ix(z) implies #[trigger] pt::leaf(
        m3,
        root,
        x,
        y,
        z,
    ) == if x == x0 && y == y0 && z == z0 {
        0
    } else {
        pt::leaf(m1, root, x, y, z)
    } by {
        assert(pt::leaf(m3, root, x, y, z) == pt::leaf(m2, root, x, y, z));
    }
    assert forall|u: u64| u < VA_END implies #[trigger] space::umem(m3, root, u) == if space::same_page(u, va) {
        None
    } else {
        space::umem(m1, root, u)
    } by {
        space::lemma_indices(u);
        space::lemma_same_page(u, va);
        let (a, b, c) = (pt::vpn_of(u, 2), pt::vpn_of(u, 1), pt::vpn_of(u, 0));
        assert(space::umem(m3, root, u) == space::umem(m2, root, u));
        let e2 = pt::leaf(m2, root, a, b, c);
        if !space::same_page(u, va) && pt::owned_leaf(pt::leaf(m1, root, a, b, c)) {
            assert(space::upage(m1, root, a, b, c));
            let t = space::upa(m1, root, a, b, c);
            assert(m2.ram[frame::fi(t)] == m1.ram[frame::fi(t)]);
            assert(frame::fi((t + u % PAGE_SIZE) as u64) == frame::fi(t));
        }
    }
}

/// Unmaps the user pages of `[va, va + len)` and gives their frames back.
/// Holes and kernel mappings in the range are left alone.
#[verifier::spinoff_prover]
#[verifier::rlimit(60)]
pub fn unmap_free_user(m: &mut Mem, root: u64, va: u64, len: u64)
    requires
        old(m)@.wf(),
        space::space_wf(old(m)@, root),
        va + len <= VA_END,
    ensures
        final(m)@.wf(),
        space::space_wf(final(m)@, root),
        cut(old(m)@, final(m)@, root, pt::page_down(va), pt::span(va, len)),
        cut_leaves(old(m)@, final(m)@, root, pt::page_down(va), pt::span(va, len)),
        forall|t: u64| #[trigger]
            final(m)@.free(t) <==> old(m)@.free(t) || range_owns(
                old(m)@,
                root,
                pt::page_down(va),
                pt::span(va, len),
                t,
            ),
        forall|t: u64|
            frame::in_ram(t) && !space::owns(old(m)@, root, t) && !old(m)@.free(t)
                ==> #[trigger] final(m)@.ram[frame::fi(t)] == old(m)@.ram[frame::fi(t)],
        forall|t: u64| #[trigger] space::owns(final(m)@, root, t) ==> space::owns(old(m)@, root, t),
{
    let start: u64 = va - va % PAGE_SIZE;
    let end: u64 = (va + len + (PAGE_SIZE - 1)) / PAGE_SIZE * PAGE_SIZE;
    let ghost m0 = m@;
    let ghost n = pt::span(va, len);
    let mut cur: u64 = start;
    let ghost mut i: nat = 0;
    while cur < end
        invariant
            m0 == old(m)@,
            m0.wf(),
            space::space_wf(m0, root),
            m@.wf(),
            space::space_wf(m@, root),
            start == pt::page_down(va),
            n == pt::span(va, len),
            va + len <= VA_END,
            start % PAGE_SIZE == 0,
            end <= VA_END,
            cur == start + i * PAGE_SIZE,
            end == start + n * PAGE_SIZE,
            i <= n,
            cut(m0, m@, root, start, i),
            cut_leaves(m0, m@, root, start, i),
            forall|t: u64| #[trigger] m@.free(t) <==> m0.free(t) || range_owns(m0, root, start, i, t),
            forall|t: u64|
                frame::in_ram(t) && !space::owns(m0, root, t) && !m0.free(t) ==> #[trigger] m@.ram[frame::fi(
                    t,
                )] == m0.ram[frame::fi(t)],
            forall|t: u64| #[trigger] space::owns(m@, root, t) ==> space::owns(m0, root, t),
        decreases end + PAGE_SIZE - cur,
    {
        let ghost m1 = m@;
        let ghost (x0, y0, z0) = (pt::vpn_of(cur, 2), pt::vpn_of(cur, 1), pt::vpn_of(cur, 0));
        proof {
            assert(pt::page_va(start, i) == cur);
            space::lemma_indices(cur);
            lemma_page_fresh(start, i, cur);
            assert(pt::leaf(m1, root, x0, y0, z0) == pt::leaf(m0, root, x0, y0, z0));
        }
        let got = pt::unmap_page(m, root, cur);
        if let Some(pa) = got {
            proof {
                lemma_drop_page(m1, m@, root, cur);
            }
            frame::dealloc_frame(m, pa);
        }
        proof {
            let e = pt::leaf_at(m0, root, cur);
            assert forall|x: int, y: int, z: int| pt::ix(x) && pt::ix(y) && pt::ix(z) implies #[trigger] pt::leaf(
                m@,
                root,
                x,
                y,
                z,
            ) == if pt::page_in(start, i + 1, x, y, z) && pt::owned_leaf(pt::leaf(m0, root, x, y, z)) {
                0
            } else {
                pt::leaf(m0, root, x, y, z)
            } by {
                pt::lemma_page_in_step(start, i, x, y, z);
                let e1 = pt::leaf(m1, root, x, y, z);
            }
            assert forall|u: u64| u < VA_END implies #[trigger] space::umem(m@, root, u) == if space::in_pages(
                start,
                i + 1,
                u,
            ) {
                None
            } else {
                space::umem(m0, root, u)
            } by {
                assert(space::umem(m1, root, u) == if space::in_pages(start, i, u) {
                    None
                } else {
                    space::umem(m0, root, u)
                });
                space::lemma_same_page(u, cur);
                if space::same_page(u, cur) {
                    assert(pt::leaf_at(m0, root, u) == e);
                    assert(pt::leaf_at(m1, root, u) == pt::leaf_at(m1, root, cur));
                }
            }
            assert forall|t: u64| #[trigger] m@.free(t) <==> m0.free(t) || range_owns(
                m0,
                root,
                start,
                i + 1,
                t,
            ) by {
                assert(m1.free(t) <==> m0.free(t) || range_owns(m0, root, start, i, t));
                lemma_range_owns_step(m0, root, start, i, t);
            }
            assert forall|t: u64|
                frame::in_ram(t) && !space::owns(m0, root, t) && !m0.free(t) implies #[trigger] m@.ram[frame::fi(
                t,
            )] == m0.ram[frame::fi(t)] by {
                assert(m1.ram[frame::fi(t)] == m0.ram[frame::fi(t)]);
                if m1.free(t) {
                    assert(range_owns(m0, root, start, i, t));
                    lemma_range_owned(m0, root, start, i, t);
                }
            }
            assert forall|t: u64| #[trigger] space::owns(m@, root, t) implies space::owns(m0, root, t) by {
                assert(space::owns(m1, root, t));
            }
            i = i + 1;
        }
        cur = cur + PAGE_SIZE;
    }
}

/// The range's pages are distinct: page `i` is none of those before it.
proof fn lemma_page_fresh(start: u64, i: nat, cur: u64)
    requires
        start % PAGE_SIZE == 0,
        cur == start + i * PAGE_SIZE,
        cur < VA_END,
    ensures
        !pt::page_in(start, i, pt::vpn_of(cur, 2), pt::vpn_of(cur, 1), pt::vpn_of(cur, 0)),
{
    if pt::page_in(start, i, pt::vpn_of(cur, 2), pt::vpn_of(cur, 1), pt::vpn_of(cur, 0)) {
        let j = choose|j: nat|
            j < i && pt::vpn_of(#[trigger] pt::page_va(start, j), 2) == pt::vpn_of(cur, 2) && pt::vpn_of(
                pt::page_va(start, j),
                1,
            ) == pt::vpn_of(cur, 1) && pt::vpn_of(pt::page_va(start, j), 0) == pt::vpn_of(cur, 0);
        space::lemma_same_page(pt::page_va(start, j), cur);
    }
}

proof fn lemma_range_owns_step(m: MemV, root: u64, start: u64, i: nat, t: u64)
    ensures
        range_owns(m, root, start, i + 1, t) <==> range_owns(m, root, start, i, t) || (pt::owned_leaf(
            pt::leaf_at(m, root, pt::page_va(start, i)),
        ) && pt::pte_pa_of(pt::leaf_at(m, root, pt::page_va(start, i))) == t),
{
    if range_owns(m, root, start, i + 1, t) {
        let j = choose|j: nat|
            j < i + 1 && pt::owned_leaf(pt::leaf_at(m, root, #[trigger] pt::page_va(start, j)))
                && pt::pte_pa_of(pt::leaf_at(m, root, pt::page_va(start, j))) == t;
        if j < i {
            assert(range_owns(m, root, start, i, t));
        }
    }
    if range_owns(m, root, start, i, t) {
        let j = choose|j: nat|
            j < i && pt::owned_leaf(pt::leaf_at(m, root, #[trigger] pt::page_va(start, j))) && pt::pte_pa_of(
                pt::leaf_at(m, root, pt::page_va(start, j)),
            ) == t;
        assert(j < i + 1);
    }
}

proof fn lemma_range_owned(m: MemV, root: u64, start: u64, i: nat, t: u64)
    requires
        range_owns(m, root, start, i, t),
    ensures
        space::owns(m, root, t),
{
    let j = choose|j: nat|
        j < i && pt::owned_leaf(pt::leaf_at(m, root, #[trigger] pt::page_va(start, j))) && pt::pte_pa_of(
            pt::leaf_at(m, root, pt::page_va(start, j)),
        ) == t;
    let v = pt::page_va(start, j);
    pt::lemma_vpn_bound(v, 2);
    pt::lemma_vpn_bound(v, 1);
    pt::lemma_vpn_bound(v, 0);
    assert(space::upage(m, root, pt::vpn_of(v, 2), pt::vpn_of(v, 1), pt::vpn_of(v, 0)));
}

/// Tearing down a space undoes its creation and all it grew by: afterwards
/// exactly the frames that were free before it was made are free.
pub proof fn law_teardown_undoes_creation(m: MemV, n: MemV, g: MemV, k: MemV, kroot: u64, root: u64)
    requires
        m.wf(),
        crate::mem::kernel::fresh_space(m, n, kroot, root),
        space::space_only(n, g, root),
        space::space_wf(g, root),
        after_free(g, k, |t: u64| gives_back(g, root, t)),
    ensures
        forall|t: u64| #[trigger] k.free(t) <==> m.free(t),
{
    let back = |t: u64| gives_back(g, root, t);
    assert forall|t: u64| #[trigger] k.free(t) <==> m.free(t) by {
        assert(k.free(t) <==> g.free(t) || back(t));
        assert(back(t) == space::owns(g, root, t)) by {
            if space::owns(g, root, t) && !pt::is_table(g, root, t) {
                let (a, b, c) = choose|a: int, b: int, c: int| #[trigger]
                    space::upage(g, root, a, b, c) && space::upa(g, root, a, b, c) == t;
                assert(opage(g, root, a, b, c));
            }
            if back(t) && !pt::is_table(g, root, t) {
                let (a, b, c) = choose|a: int, b: int, c: int| #[trigger]
                    opage(g, root, a, b, c) && space::upa(g, root, a, b, c) == t;
                assert(space::upage(g, root, a, b, c));
            }
        }
        if g.free(t) {
            assert(n.free(t));
        }
        if space::owns(g, root, t) {
            assert(space::owns(n, root, t) || n.free(t));
        }
        if m.free(t) && !g.free(t) {
            if !n.free(t) {
                assert(space::owns(n, root, t));
            }
            assert(space::owns(g, root, t));
        }
    }
}

/// What a torn-down space gives back is what it owned.
pub proof fn lemma_back_owns(m: MemV, root: u64, t: u64)
    requires
        space::space_wf(m, root),
    ensures
        gives_back(m, root, t) == space::owns(m, root, t),
{
    if space::owns(m, root, t) && !pt::is_table(m, root, t) {
        let (a, b, c) = choose|a: int, b: int, c: int| #[trigger]
            space::upage(m, root, a, b, c) && space::upa(m, root, a, b, c) == t;
        assert(opage(m, root, a, b, c));
    }
    if gives_back(m, root, t) && !pt::is_table(m, root, t) {
        let (a, b, c) = choose|a: int, b: int, c: int| #[trigger]
            opage(m, root, a, b, c) && space::upa(m, root, a, b, c) == t;
        assert(space::upage(m, root, a, b, c));
    }
}

/// Tearing down a space all of whose frames were free at `m0` leaves the
/// allocator what it had then, and what was in use untouched.
pub proof fn lemma_undo(m0: MemV, m: MemV, k: MemV, root: u64)
    requires
        m0.wf(),
        space::space_wf(m, root),
        frame::owners_kept(m0, m),
        forall|t: u64|
            frame::in_ram(t) && !m0.free(t) ==> #[trigger] m.ram[frame::fi(t)] == m0.ram[frame::fi(t)]
                && !m.free(t),
        forall|t: u64| #[trigger] space::owns(m, root, t) ==> m0.free(t),
        forall|t: u64| #[trigger] m.free(t) ==> m0.free(t),
        forall|t: u64| #![trigger m.free(t)] m0.free(t) && !m.free(t) ==> space::owns(m, root, t),
        after_free(m, k, |t: u64| gives_back(m, root, t)),
    ensures
        frame::same_use(m0, k),
        forall|t: u64|
            frame::in_ram(t) && !m0.free(t) ==> #[trigger] k.ram[frame::fi(t)] == m0.ram[frame::fi(t)]
                && !k.free(t),
{
    let back = |t: u64| gives_back(m, root, t);
    assert forall|t: u64| #[trigger] k.free(t) <==> m0.free(t) by {
        lemma_back_owns(m, root, t);
        assert(k.free(t) <==> m.free(t) || back(t));
        assert(m.free(t) ==> m0.free(t));
    }
    assert forall|t: u64| frame::in_ram(t) && !m0.free(t) implies #[trigger] k.ram[frame::fi(t)]
        == m0.ram[frame::fi(t)] && !k.free(t) && k.fa.owner[frame::fi(t)] == m0.fa.owner[frame::fi(t)] by {
        lemma_back_owns(m, root, t);
        assert(m.ram[frame::fi(t)] == m0.ram[frame::fi(t)]);
        assert(m.fa.owner[frame::fi(t)] == m0.fa.owner[frame::fi(t)]);
        assert(!back(t));
        assert(k.free(t) <==> m0.free(t));
    }
    assert(frame::owners_kept(m0, k)) by {
        assert forall|t: u64| frame::in_ram(t) && !m0.free(t) implies #[trigger] k.fa.owner[frame::fi(t)]
            == m0.fa.owner[frame::fi(t)] by {
            assert(k.ram[frame::fi(t)] == m0.ram[frame::fi(t)]);
        }
    }
    frame::lemma_same_use(m0, k);
}

} // verus!
