//! Which tables and user pages a space has, and how many frames a range of
//! pages would take there.
use crate::mem::copy;
use crate::mem::frame::{MemV, PAGE_SIZE};
use crate::mem::pagetable as pt;
use crate::mem::space;
use crate::mem::space::VA_END;
use vstd::prelude::*;

verus! {

/// Which tables a space has, and which addresses are on its user pages.
#[verifier::ext_equal]
pub struct Shape {
    pub has1: spec_fn(int) -> bool,
    pub has0: spec_fn(int, int) -> bool,
    pub page: spec_fn(u64) -> bool,
}

/// A space without user pages.
pub open spec fn bare_shape(m: MemV, root: u64) -> Shape {
    Shape {
        has1: |x: int| pt::ix(x) && pt::has1(m, root, x),
        has0: |x: int, y: int| pt::ix(x) && pt::ix(y) && pt::has0(m, root, x, y),
        page: |u: u64| false,
    }
}

/// The shape once the `n` pages from `start` on are there.
pub open spec fn grown(s: Shape, start: u64, n: nat) -> Shape {
    Shape {
        has1: |x: int| (s.has1)(x) || pt::touches1(start, n, x),
        has0: |x: int, y: int| (s.has0)(x, y) || pt::touches0(start, n, x, y),
        page: |u: u64| (s.page)(u) || space::in_pages(start, n, u),
    }
}

/// No page more, the same shape.
pub proof fn lemma_none_grown(s: Shape, start: u64)
    ensures
        grown(s, start, 0) == s,
{
    let t = grown(s, start, 0);
    assert forall|x: int| #[trigger] (t.has1)(x) == (s.has1)(x) by {}
    assert forall|x: int, y: int| #[trigger] (t.has0)(x, y) == (s.has0)(x, y) by {}
    assert forall|u: u64| #[trigger] (t.page)(u) == (s.page)(u) by {}
    assert(t.has1 =~= s.has1 && t.has0 =~= s.has0 && t.page =~= s.page);
}

/// Frames that the `n` pages from `start` on take: those not there yet, and
/// the tables missing for them.
pub open spec fn range_need(s: Shape, start: u64, n: nat) -> nat
    decreases n,
{
    if n == 0 {
        0
    } else {
        let i = (n - 1) as nat;
        let u = pt::page_va(start, i);
        let x = pt::vpn_of(u, 2);
        let y = pt::vpn_of(u, 1);
        range_need(s, start, i) + (if (s.page)(u) {
            0nat
        } else {
            1
        }) + (if (s.has0)(x, y) || pt::touches0(start, i, x, y) {
            0nat
        } else if (s.has1)(x) || pt::touches1(start, i, x) {
            1
        } else {
            2
        })
    }
}

/// The tables under `root` are those of the shape.
pub open spec fn tables_as(m: MemV, root: u64, s: Shape) -> bool {
    &&& forall|x: int| pt::ix(x) ==> #[trigger] pt::has1(m, root, x) == (s.has1)(x)
    &&& forall|x: int, y: int|
        pt::ix(x) && pt::ix(y) ==> #[trigger] pt::has0(m, root, x, y) == (s.has0)(x, y)
}

/// The space under `root` has this shape.
pub open spec fn shaped(m: MemV, root: u64, s: Shape) -> bool {
    &&& tables_as(m, root, s)
    &&& forall|u: u64| u < VA_END ==> (#[trigger] space::umem(m, root, u) is Some) == (s.page)(u)
}

pub proof fn lemma_bare_shaped(m: MemV, root: u64)
    requires
        copy::bare(m, root),
    ensures
        shaped(m, root, bare_shape(m, root)),
{
    assert forall|u: u64| u < VA_END implies (#[trigger] space::umem(m, root, u) is Some) == (bare_shape(
        m,
        root,
    ).page)(u) by {
        space::lemma_indices(u);
        assert(!space::upage(m, root, pt::vpn_of(u, 2), pt::vpn_of(u, 1), pt::vpn_of(u, 0)));
    }
}

/// What a range takes follows from the shape.
pub proof fn lemma_range_need(m: MemV, root: u64, s: Shape, start: u64, n: nat)
    requires
        shaped(m, root, s),
        start + n * PAGE_SIZE <= VA_END,
        space::user_range(m, root, start, n),
    ensures
        space::user_need(m, root, start, n) == range_need(s, start, n),
    decreases n,
{
    if n > 0 {
        let i = (n - 1) as nat;
        lemma_range_need(m, root, s, start, i);
        let u = pt::page_va(start, i);
        assert(start + i * PAGE_SIZE + PAGE_SIZE <= VA_END);
        assert(u < VA_END);
        space::lemma_indices(u);
        assert((space::umem(m, root, u) is Some) == (s.page)(u));
        assert((pt::translation(m, root, u) is Some) == (s.page)(u));
        let x = pt::vpn_of(u, 2);
        let y = pt::vpn_of(u, 1);
        assert(pt::has1(m, root, x) == (s.has1)(x));
        assert(pt::has0(m, root, x, y) == (s.has0)(x, y));
    }
}

/// Where every page counts as there, only tables are taken.
pub proof fn lemma_tables_need(m: MemV, root: u64, s: Shape, start: u64, n: nat)
    requires
        tables_as(m, root, s),
        forall|u: u64| #[trigger] (s.page)(u),
    ensures
        pt::range_tables(m, root, start, n) == range_need(s, start, n),
    decreases n,
{
    if n > 0 {
        let i = (n - 1) as nat;
        lemma_tables_need(m, root, s, start, i);
        let u = pt::page_va(start, i);
        pt::lemma_vpn_bound(u, 2);
        pt::lemma_vpn_bound(u, 1);
        let x = pt::vpn_of(u, 2);
        let y = pt::vpn_of(u, 1);
        assert((s.page)(u));
        assert(pt::has1(m, root, x) == (s.has1)(x));
        assert(pt::has0(m, root, x, y) == (s.has0)(x, y));
    }
}

/// The tables once a range is there.
pub proof fn lemma_tables_grown(m: MemV, n: MemV, root: u64, s: Shape, start: u64, k: nat)
    requires
        tables_as(m, root, s),
        pt::tables_seen(m, n, root, start, k),
    ensures
        tables_as(n, root, grown(s, start, k)),
{
    let t = grown(s, start, k);
    assert forall|x: int| pt::ix(x) implies #[trigger] pt::has1(n, root, x) == (t.has1)(x) by {
        assert(pt::has1(m, root, x) == (s.has1)(x));
    }
    assert forall|x: int, y: int| pt::ix(x) && pt::ix(y) implies #[trigger] pt::has0(n, root, x, y) == (t.has0)(
        x,
        y,
    ) by {
        assert(pt::has0(m, root, x, y) == (s.has0)(x, y));
    }
}

/// The shape once a range is there.
pub proof fn lemma_grown(m: MemV, n: MemV, root: u64, s: Shape, start: u64, k: nat)
    requires
        shaped(m, root, s),
        pt::tables_seen(m, n, root, start, k),
        forall|u: u64|
            u < VA_END ==> (#[trigger] space::umem(n, root, u) is Some) == (space::umem(m, root, u) is Some
                || space::in_pages(start, k, u)),
    ensures
        shaped(n, root, grown(s, start, k)),
{
    let t = grown(s, start, k);
    lemma_tables_grown(m, n, root, s, start, k);
    assert forall|u: u64| u < VA_END implies (#[trigger] space::umem(n, root, u) is Some) == (t.page)(u) by {
        assert((space::umem(m, root, u) is Some) == (s.page)(u));
    }
}

/// The shape stays where no table and no page comes or goes.
pub proof fn lemma_shape_kept(m: MemV, n: MemV, root: u64, s: Shape)
    requires
        shaped(m, root, s),
        pt::same_tables(m, n, root),
        forall|u: u64|
            u < VA_END ==> (#[trigger] space::umem(n, root, u) is Some) == (space::umem(m, root, u) is Some),
    ensures
        shaped(n, root, s),
{
    assert forall|x: int| pt::ix(x) implies #[trigger] pt::has1(n, root, x) == (s.has1)(x) by {
        assert(pt::has1(m, root, x) == (s.has1)(x));
    }
    assert forall|x: int, y: int| pt::ix(x) && pt::ix(y) implies #[trigger] pt::has0(n, root, x, y) == (s.has0)(
        x,
        y,
    ) by {
        assert(pt::has0(m, root, x, y) == (s.has0)(x, y));
    }
    assert forall|u: u64| u < VA_END implies (#[trigger] space::umem(n, root, u) is Some) == (s.page)(u) by {
        assert((space::umem(m, root, u) is Some) == (s.page)(u));
    }
}

} // verus!
