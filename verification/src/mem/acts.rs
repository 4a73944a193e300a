//! What the operations on memory do, told of the operations themselves.
use crate::hw::sbi::SbiCall;
use crate::mem::frame;
use crate::mem::frame::{Mem, MAX_CG, WORDS};
use crate::mem::heap;
use crate::mem::heap::{HeapAlloc, Run};
use crate::mem::pagetable as pt;
use crate::mem::share;
use crate::mem::space;
use crate::mem::space::VA_END;
use crate::mem::teardown;
use vstd::prelude::*;

verus! {

// ---- the heap ----

/// Memory is had just where a free run holds it, and comes out of the first.
pub proof fn law_take(h: &mut HeapAlloc, size: u64, r: Option<u64>)
    requires
        old(h)@.wf(),
        size <= u64::MAX - 64,
        call_ensures(HeapAlloc::take, (h, size), r),
    ensures
        ({
            let a = old(h)@;
            let b = final(h)@;
            let n = (size + 15) / 16 * 16 + 16;
            &&& r is Some <==> exists|i: int| 0 <= i < a.free.len() && (#[trigger] a.free[i]).size >= n
            &&& r is None ==> b == a
            &&& r is Some ==> exists|i: int|
                0 <= i < a.free.len() && (#[trigger] a.free[i]).size >= n && r == Some((a.free[i].start + 16) as u64) && (
                forall|j: int| 0 <= j < i ==> (#[trigger] a.free[j]).size < n)
            &&& share::sum(b.free) + share::sum(b.used) == share::sum(a.free) + share::sum(a.used)
        }),
{
    share::law_take_finds_room(old(h)@, size);
}

/// What is given back is free again, all of it.
pub proof fn law_give(h: &mut HeapAlloc, p: u64, u: (), i: int)
    requires
        old(h)@.wf(),
        0 <= i < old(h)@.used.len(),
        p == old(h)@.used[i].start + 16,
        forall|j: int| 0 <= j < old(h)@.used.len() && j != i ==> (#[trigger] old(h)@.used[j]).start != old(h)@.used[i].start,
        call_ensures(HeapAlloc::give, (h, p), u),
    ensures
        final(h)@.used == old(h)@.used.remove(i),
        share::sum(final(h)@.free) == share::sum(old(h)@.free) + old(h)@.used[i].size,
{
    share::law_give_loses_nothing(old(h)@, i);
}

proof fn lemma_stats(s: Seq<Run>, n: int)
    requires
        0 <= n <= s.len(),
    ensures
        heap::total(s, n) == share::sum(s.take(n)),
        forall|i: int| 0 <= i < n ==> (#[trigger] s[i]).size <= heap::largest(s, n),
        n > 0 ==> exists|i: int| 0 <= i < n && (#[trigger] s[i]).size == heap::largest(s, n),
        n == 0 ==> heap::largest(s, n) == 0,
    decreases n,
{
    if n > 0 {
        lemma_stats(s, n - 1);
        assert(s.take(n).drop_last() =~= s.take(n - 1));
        assert(s.take(n).last() == s[n - 1]);
        if s[n - 1].size == heap::largest(s, n) {
            assert(s[n - 1].size == heap::largest(s, n));
        } else if n > 1 {
            let i = choose|i: int| 0 <= i < n - 1 && (#[trigger] s[i]).size == heap::largest(s, n - 1);
            assert(s[i].size == heap::largest(s, n));
        }
    }
}

/// The account of the heap: the bytes that are free, and the longest free run.
pub proof fn law_stats(h: &HeapAlloc, r: (u64, u64))
    requires
        h@.wf(),
        call_ensures(heap::stats, (h,), r),
    ensures
        r.0 == share::sum(h@.free),
        forall|i: int| 0 <= i < h@.free.len() ==> (#[trigger] h@.free[i]).size <= r.1,
        h@.free.len() > 0 ==> exists|i: int| 0 <= i < h@.free.len() && (#[trigger] h@.free[i]).size == r.1,
        h@.free.len() == 0 ==> r.1 == 0,
{
    lemma_stats(h@.free, h@.free.len() as int);
    assert(h@.free.take(h@.free.len() as int) =~= h@.free);
}

// ---- frames ----

/// A frame is had just where one is free and the group is below its limit; it
/// is zeroed and charged to the group.
pub proof fn law_alloc(m: &mut Mem, cg: usize, r: Option<u64>, other: u64)
    requires
        old(m)@.wf(),
        cg < MAX_CG,
        call_ensures(frame::alloc_frame_cg, (m, cg), r),
    ensures
        ({
            let a = old(m)@;
            let b = final(m)@;
            &&& r is Some <==> (a.fa.lim[cg as int] == 0 || a.fa.used[cg as int] < a.fa.lim[cg as int]) && exists|pa: u64| #[trigger]
                a.free(pa)
            &&& r is None ==> b == a
            &&& r is Some ==> {
                let pa = r->0;
                &&& a.free(pa) && !b.free(pa)
                &&& forall|i: int| 0 <= i < WORDS ==> #[trigger] b.ram[frame::fi(pa)][i] == 0
                &&& b.fa.owner[frame::fi(pa)] == cg
                &&& b.fa.used[cg as int] == a.fa.used[cg as int] + 1
                &&& frame::in_ram(other) && other != pa ==> b.ram[frame::fi(other)] == a.ram[frame::fi(other)] && b.free(
                    other,
                ) == a.free(other)
            }
        }),
{
    share::law_frame_can_be_had(old(m)@, cg);
    if old(m)@.fa.can_alloc(cg) {
        share::law_frame_is_charged(old(m)@, cg, other);
    }
}

/// A frame that is given back is the next that is had, and its group has one
/// less.
pub proof fn law_dealloc(m: &mut Mem, pa: u64, u: (), t: &mut Mem, cg: usize, r: Option<u64>)
    requires
        old(m)@.wf(),
        old(m)@.live(pa),
        old(m)@.fa.owner[frame::fi(pa)] < MAX_CG,
        cg < MAX_CG,
        old(m)@.fa.lim[cg as int] == 0,
        call_ensures(frame::dealloc_frame, (m, pa), u),
        old(t)@ == final(m)@,
        call_ensures(frame::alloc_frame_cg, (t, cg), r),
    ensures
        final(m)@.free(pa),
        final(m)@.fa.used[old(m)@.fa.owner[frame::fi(pa)] as int] == old(m)@.fa.used[old(m)@.fa.owner[frame::fi(
            pa,
        )] as int] - 1,
        r == Some(pa),
{
    share::law_frame_comes_back(old(m)@, pa, pa);
    share::law_frame_can_be_had(final(m)@, cg);
}

/// A limit is what it was set to, and a group that has used it up gets no more.
pub proof fn law_limit(m: &mut Mem, cg: usize, lim: u64, u: (), t: &Mem, l: u64, w: &mut Mem, r: Option<u64>)
    requires
        old(m)@.wf(),
        cg < MAX_CG,
        call_ensures(frame::set_cg_limit, (m, cg, lim), u),
        t@ == final(m)@,
        call_ensures(frame::cg_lim, (t, cg), l),
        old(w)@ == final(m)@,
        call_ensures(frame::alloc_frame_cg, (w, cg), r),
    ensures
        l == lim,
        0 < lim <= old(m)@.fa.used[cg as int] ==> r is None,
        final(m)@.ram == old(m)@.ram,
        final(m)@.fa.used == old(m)@.fa.used && final(m)@.fa.owner == old(m)@.fa.owner,
        forall|g: int| 0 <= g < MAX_CG && g != cg ==> #[trigger] final(m)@.fa.lim[g] == old(m)@.fa.lim[g],
{
    share::law_frame_can_be_had(final(m)@, cg);
}

// ---- pages ----

/// A page that is mapped leads to its frame; every other address leads where it
/// led.
pub proof fn law_map(m: &mut Mem, root: u64, va: u64, pa: u64, flags: u64, cg: usize, ok: bool, t: &Mem, w: u64, r: Option<u64>)
    requires
        va < VA_END,
        w < VA_END,
        pa % 4096 == 0,
        pa < 0x100_0000_0000_0000,
        flags & 14 != 0,
        call_ensures(pt::map_one, (m, root, va, pa, flags, cg), ok),
        t@ == final(m)@,
        call_ensures(pt::translate, (t, root, w), r),
    ensures
        ok && w / 4096 == va / 4096 ==> r == Some((pa + w % 4096) as u64),
        !ok || w / 4096 != va / 4096 ==> r == pt::translation(old(m)@, root, w),
{
    if ok {
        pt::law_map_then_translate(old(m)@, final(m)@, root, va, pa, flags, w);
    } else {
        pt::law_failed_map_keeps(old(m)@, final(m)@, root, w);
    }
}

/// A user page that is unmapped leads nowhere, and its frame is told; every
/// other page leads where it led.
pub proof fn law_unmap_page(m: &mut Mem, root: u64, va: u64, r: Option<u64>, w: u64)
    requires
        va < VA_END,
        w < VA_END,
        call_ensures(pt::unmap_page, (m, root, va), r),
    ensures
        r is Some ==> space::umem(old(m)@, root, va) is Some && (w / 4096 == va / 4096 ==> pt::translation(
            final(m)@,
            root,
            w,
        ) is None),
        r is Some && va % 4096 == 0 ==> pt::translation(old(m)@, root, va) == r,
        r is None ==> final(m)@ == old(m)@ && space::umem(old(m)@, root, va) is None,
        w / 4096 != va / 4096 ==> pt::translation(final(m)@, root, w) == pt::translation(old(m)@, root, w),
{
    space::lemma_same_page(w, va);
    space::lemma_indices(w);
    space::lemma_indices(va);
    pt::lemma_flag_consts();
}

/// A range that is unmapped holds nothing for the user any more, page by page;
/// every other byte is as it was, and every frame that backed it is free.
pub proof fn law_unmap(m: &mut Mem, root: u64, va: u64, len: u64, x: (), u: u64)
    requires
        va + len <= VA_END,
        u < VA_END,
        call_ensures(teardown::unmap_free_user, (m, root, va, len), x),
    ensures
        va <= u < va + len ==> space::umem(final(m)@, root, u) is None,
        u < va - va % 4096 || u >= (va + len + 4095) / 4096 * 4096 ==> space::umem(final(m)@, root, u) == space::umem(
            old(m)@,
            root,
            u,
        ),
        va <= u < va + len && space::umem(old(m)@, root, u) is Some ==> final(m)@.free(
            pt::pte_pa_of(pt::leaf_at(old(m)@, root, u)),
        ),
        forall|t: u64| #[trigger] old(m)@.free(t) ==> final(m)@.free(t),
{
    let start = pt::page_down(va);
    let n = pt::span(va, len);
    assert(va <= u < va + len ==> space::in_pages(start, n, u));
    assert(space::umem(final(m)@, root, u) == if space::in_pages(start, n, u) {
        None
    } else {
        space::umem(old(m)@, root, u)
    });
    if va <= u < va + len {
        let i = (u / 4096 - va / 4096) as nat;
        lemma_page(va, u, i);
        space::lemma_same_page(pt::page_va(start, i), u);
        assert(i < n);
        assert(pt::leaf_at(old(m)@, root, pt::page_va(start, i)) == pt::leaf_at(old(m)@, root, u));
        if space::umem(old(m)@, root, u) is Some {
            assert(teardown::range_owns(old(m)@, root, start, n, pt::pte_pa_of(pt::leaf_at(old(m)@, root, u))));
        }
    }
}

proof fn lemma_page(va: u64, u: u64, i: nat)
    requires
        va <= u < VA_END,
        i == u / 4096 - va / 4096,
    ensures
        pt::page_va(pt::page_down(va), i) == u - u % 4096,
        pt::page_va(pt::page_down(va), i) < VA_END,
        pt::page_va(pt::page_down(va), i) / 4096 == u / 4096,
{
}

/// Rights are added to every user page of the range, and none is taken; each
/// page leads where it led.
pub proof fn law_protect(m: &mut Mem, root: u64, va: u64, len: u64, flags: u64, x: (), u: u64)
    requires
        va + len <= VA_END,
        u < VA_END,
        call_ensures(pt::protect, (m, root, va, len, flags), x),
    ensures
        ({
            let e = pt::leaf_at(old(m)@, root, u);
            let f = pt::leaf_at(final(m)@, root, u);
            &&& va <= u < va + len && space::umem(old(m)@, root, u) is Some ==> f & (flags & 30) == flags & 30 && f & e
                == e && pt::pte_pa_of(f) == pt::pte_pa_of(e)
            &&& space::umem(old(m)@, root, u) is None ==> f == e
            &&& u < va - va % 4096 || u >= (va + len + 4095) / 4096 * 4096 ==> f == e
        }),
{
    let start = pt::page_down(va);
    let n = pt::span(va, len);
    let e = pt::leaf_at(old(m)@, root, u);
    let f = pt::leaf_at(final(m)@, root, u);
    space::lemma_indices(u);
    let (a, b, c) = (pt::vpn_of(u, 2), pt::vpn_of(u, 1), pt::vpn_of(u, 0));
    assert(f == pt::leaf(final(m)@, root, a, b, c));
    pt::lemma_protect_idem(e, flags);
    if va <= u < va + len {
        let i = (u / 4096 - va / 4096) as nat;
        lemma_page(va, u, i);
        space::lemma_same_page(pt::page_va(start, i), u);
        assert(i < n);
        assert(pt::page_in(start, n, a, b, c));
        let p = e | (flags & 30);
        assert(p & (flags & 30) == flags & 30 && p & e == e) by (bit_vector)
            requires
                p == e | (flags & 30),
        ;
    }
    if u < va - va % 4096 || u >= (va + len + 4095) / 4096 * 4096 {
        if pt::page_in(start, n, a, b, c) {
            let i = choose|i: nat|
                i < n && pt::vpn_of(#[trigger] pt::page_va(start, i), 2) == a && pt::vpn_of(pt::page_va(start, i), 1) == b
                    && pt::vpn_of(pt::page_va(start, i), 0) == c;
            assert(pt::page_va(start, i) == start + i * 4096);
            assert(pt::page_va(start, i) < VA_END);
            space::lemma_same_page(pt::page_va(start, i), u);
            assert(false);
        }
    }
}

/// Bytes that are loaded are what the user sees, with zeros where a page is new
/// and every other byte as it was.
pub proof fn law_load(m: &mut Mem, root: u64, va: u64, data: &[u8], flags: u64, cg: usize, u: u64)
    requires
        va + data@.len() <= VA_END,
        u < VA_END,
        call_ensures(space::map_user, (m, root, va, data, flags, cg), true),
    ensures
        va <= u < va + data@.len() ==> space::umem(final(m)@, root, u) == Some(data@[u - va]),
        !(va <= u < va + data@.len()) && space::umem(old(m)@, root, u) is Some ==> space::umem(final(m)@, root, u)
            == space::umem(old(m)@, root, u),
        u < va - va % 4096 || u >= (va + data@.len() + 4095) / 4096 * 4096 ==> space::umem(final(m)@, root, u)
            == space::umem(old(m)@, root, u),
{
}

/// Memory that is added reads as zero where there was none, and what was there
/// stays.
pub proof fn law_grow(m: &mut Mem, root: u64, va: u64, len: u64, flags: u64, cg: usize, u: u64)
    requires
        va + len <= VA_END,
        u < VA_END,
        call_ensures(space::alloc_map_user, (m, root, va, len, flags, cg), true),
    ensures
        space::umem(old(m)@, root, u) is Some ==> space::umem(final(m)@, root, u) == space::umem(old(m)@, root, u),
        va <= u < va + len && space::umem(old(m)@, root, u) is None ==> space::umem(final(m)@, root, u) == Some(0u8),
        u < va - va % 4096 || u >= (va + len + 4095) / 4096 * 4096 ==> space::umem(final(m)@, root, u) == space::umem(
            old(m)@,
            root,
            u,
        ),
{
    let start = pt::page_down(va);
    let n = pt::span(va, len);
    assert(va <= u < va + len ==> space::in_pages(start, n, u));
}

/// Bytes that are written are read back, and no other changes.
pub proof fn law_write(m: &mut Mem, root: u64, va: u64, data: &[u8], x: (), u: u64)
    requires
        va + data@.len() <= VA_END,
        u < VA_END,
        call_ensures(space::write_bytes_to, (m, root, va, data), x),
    ensures
        space::umem(final(m)@, root, u) == if va <= u < va + data@.len() {
            Some(data@[u - va])
        } else {
            space::umem(old(m)@, root, u)
        },
{
}

/// The register that turns a table on holds the mode and the table's frame.
pub proof fn law_activate(root: u64, r: u64)
    requires
        root % 4096 == 0,
        root < 0x100_0000_0000_0000,
        call_ensures(pt::activate, (root,), r),
    ensures
        r / 0x1000_0000_0000_0000 == 8,
        r % 0x1000_0000_0000 * 4096 == root,
{
}

/// Every hart but the one that asks is told to forget translations.
pub proof fn law_flush(me: usize, r: SbiCall)
    requires
        me < 4,
        call_ensures(pt::remote_flush_all, (me,), r),
    ensures
        r.a0 % 2 == 1 <==> me != 0,
        r.a0 / 2 % 2 == 1 <==> me != 1,
        r.a0 / 4 % 2 == 1 <==> me != 2,
        r.a0 / 8 % 2 == 1 <==> me != 3,
        r.a0 < 16,
        r.a1 == 0,
{
}

} // verus!
