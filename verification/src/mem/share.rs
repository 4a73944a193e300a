//! When memory can be had, whose it is then, and that none is lost.
use crate::mem::frame;
use crate::mem::frame::{MemV, MAX_CG, MAX_FRAMES, WORDS};
use crate::mem::heap;
use crate::mem::heap::{HeapV, Run};
use vstd::prelude::*;

verus! {

// ---- the heap ----

/// Bytes of all runs.
pub open spec fn sum(s: Seq<Run>) -> int
    decreases s.len(),
{
    if s.len() == 0 {
        0
    } else {
        sum(s.drop_last()) + s.last().size
    }
}

proof fn lemma_sum_update(s: Seq<Run>, i: int, r: Run)
    requires
        0 <= i < s.len(),
    ensures
        sum(s.update(i, r)) == sum(s) - s[i].size + r.size,
    decreases s.len(),
{
    let t = s.update(i, r);
    if i == s.len() - 1 {
        assert(t.drop_last() =~= s.drop_last());
    } else {
        lemma_sum_update(s.drop_last(), i, r);
        assert(t.drop_last() =~= s.drop_last().update(i, r));
    }
}

proof fn lemma_sum_remove(s: Seq<Run>, i: int)
    requires
        0 <= i < s.len(),
    ensures
        sum(s.remove(i)) == sum(s) - s[i].size,
    decreases s.len(),
{
    let t = s.remove(i);
    if i == s.len() - 1 {
        assert(t =~= s.drop_last());
    } else {
        lemma_sum_remove(s.drop_last(), i);
        assert(t.drop_last() =~= s.drop_last().remove(i));
    }
}

proof fn lemma_sum_push(s: Seq<Run>, r: Run)
    ensures
        sum(s.push(r)) == sum(s) + r.size,
{
    assert(s.push(r).drop_last() =~= s);
}

/// Memory is had just where some free run holds the bytes, rounded up to
/// sixteen, and the header; it comes out of the first that does, behind its
/// header, and not one byte is lost.
pub proof fn law_take_finds_room(h: HeapV, size: u64)
    requires
        h.wf(),
        size <= u64::MAX - 64,
    ensures
        ({
            let (k, p) = heap::taken(h, size);
            let n = (size + 15) / 16 * 16 + 16;
            &&& p is Some <==> exists|i: int| 0 <= i < h.free.len() && (#[trigger] h.free[i]).size >= n
            &&& p is None ==> k == h
            &&& p is Some ==> exists|i: int|
                0 <= i < h.free.len() && (#[trigger] h.free[i]).size >= n && p == Some(
                    (h.free[i].start + 16) as u64,
                ) && (p->0) + size <= h.free[i].end() && forall|j: int| 0 <= j < i ==> (#[trigger] h.free[j]).size < n
            &&& p is Some ==> {
                &&& k.used.len() == h.used.len() + 1
                &&& k.used.drop_last() == h.used
                &&& k.used.last().start == (p->0) - 16
                &&& n <= k.used.last().size < n + 16
            }
            &&& sum(k.free) + sum(k.used) == sum(h.free) + sum(h.used)
        }),
{
    let n = heap::need(size);
    heap::lemma_first_fit(h.free, n, 0);
    let (k, p) = heap::taken(h, size);
    if let Some(i) = heap::first_fit(h.free, n, 0) {
        let r = h.free[i];
        assert(heap::run_ok(r));
        if r.size >= n + 16 {
            lemma_sum_update(h.free, i, Run { start: (r.start + n) as u64, size: (r.size - n) as u64 });
            lemma_sum_push(h.used, Run { start: r.start, size: n as u64 });
        } else {
            lemma_sum_remove(h.free, i);
            lemma_sum_push(h.used, r);
        }
        assert(k.used.drop_last() =~= h.used);
    }
}

proof fn lemma_sum_insert(s: Seq<Run>, i: int, r: Run)
    requires
        0 <= i <= s.len(),
    ensures
        sum(s.insert(i, r)) == sum(s) + r.size,
    decreases s.len(),
{
    let t = s.insert(i, r);
    if i == s.len() {
        assert(t.drop_last() =~= s);
    } else {
        lemma_sum_insert(s.drop_last(), i, r);
        assert(t.drop_last() =~= s.drop_last().insert(i, r));
    }
}

/// What is given back is free again, all of it: the run is not in use any more,
/// every other is, and the bytes in all stay the same.
pub proof fn law_give_loses_nothing(h: HeapV, i: int)
    requires
        h.wf(),
        0 <= i < h.used.len(),
        forall|j: int| 0 <= j < h.used.len() && j != i ==> (#[trigger] h.used[j]).start != h.used[i].start,
    ensures
        ({
            let k = heap::given(h, (h.used[i].start + 16) as u64);
            &&& k.used == h.used.remove(i)
            &&& sum(k.free) == sum(h.free) + h.used[i].size
        }),
{
    let r = h.used[i];
    assert(heap::run_ok(r));
    heap::lemma_run_at(h.used, r.start, 0);
    assert(heap::run_at(h.used, r.start, 0) == Some(i));
    let f = h.free;
    let k = heap::below(f, r.start, 0);
    heap::lemma_below(f, r.start, 0);
    let with_next = k < f.len() && r.end() == f[k].start;
    let m = if with_next {
        Run { start: r.start, size: (r.size + f[k].size) as u64 }
    } else {
        r
    };
    let rest = if with_next {
        f.remove(k)
    } else {
        f
    };
    if with_next {
        assert(heap::run_ok(f[k]));
        lemma_sum_remove(f, k);
    }
    if k > 0 && f[k - 1].end() == r.start {
        assert(heap::run_ok(f[k - 1]));
        assert(rest[k - 1] == f[k - 1]);
        lemma_sum_update(rest, k - 1, Run { start: f[k - 1].start, size: (f[k - 1].size + m.size) as u64 });
    } else {
        lemma_sum_insert(rest, k, m);
    }
}

// ---- frames ----

/// A frame is had just where the group is below its limit, if it has one, and
/// some frame is free.
pub proof fn law_frame_can_be_had(m: MemV, cg: usize)
    requires
        m.wf(),
        cg < MAX_CG,
    ensures
        m.fa.can_alloc(cg) <==> (m.fa.lim[cg as int] == 0 || m.fa.used[cg as int] < m.fa.lim[cg as int]) && exists|pa: u64| #[trigger]
            m.free(pa),
{
    if m.fa.has_frame() {
        if m.fa.recycled.len() > 0 {
            assert(m.fa.recycled.contains(m.fa.recycled[0]));
            assert(m.free(m.fa.recycled[0]));
        } else {
            assert(m.free(m.fa.cur));
        }
    }
    if exists|pa: u64| #[trigger] m.free(pa) {
        let pa = choose|pa: u64| #[trigger] m.free(pa);
        assert(m.fa.recycled.contains(pa) ==> m.fa.recycled.len() > 0);
    }
}

/// A frame that is handed out is zeroed and charged to its group, one more than
/// before, and no other frame and no other group is touched.
pub proof fn law_frame_is_charged(m: MemV, cg: usize, other: u64)
    requires
        m.wf(),
        cg < MAX_CG,
        m.fa.can_alloc(cg),
    ensures
        ({
            let n = m.grab(cg);
            let pa = m.fa.next_frame();
            &&& m.free(pa) && !n.free(pa)
            &&& n.ram[frame::fi(pa)].len() == WORDS
            &&& forall|i: int| 0 <= i < WORDS ==> #[trigger] n.ram[frame::fi(pa)][i] == 0
            &&& n.fa.owner[frame::fi(pa)] == cg
            &&& n.fa.used[cg as int] == m.fa.used[cg as int] + 1
            &&& forall|g: int| 0 <= g < MAX_CG && g != cg ==> #[trigger] n.fa.used[g] == m.fa.used[g]
            &&& n.fa.lim == m.fa.lim
            &&& frame::in_ram(other) && other != pa ==> n.ram[frame::fi(other)] == m.ram[frame::fi(other)]
                && n.fa.owner[frame::fi(other)] == m.fa.owner[frame::fi(other)] && n.free(other) == m.free(other)
        }),
{
    frame::law_alloc(m, cg);
    let pa = m.fa.next_frame();
    assert(m.fa.used[cg as int] == frame::charged(m.fa.owner, cg as int, MAX_FRAMES as int));
    frame::lemma_charged_bound(m.fa.owner, cg as int, MAX_FRAMES as int);
    if frame::in_ram(other) && other != pa {
        assert(frame::fi(other) != frame::fi(pa));
    }
}

/// A frame given back can be had again, holds nothing, and its group has one
/// less; no other frame and no other group is touched.
pub proof fn law_frame_comes_back(m: MemV, pa: u64, other: u64)
    requires
        m.wf(),
        m.live(pa),
        m.fa.owner[frame::fi(pa)] < MAX_CG,
    ensures
        ({
            let n = m.dealloc(pa);
            let g = m.fa.owner[frame::fi(pa)] as int;
            &&& n.free(pa)
            &&& forall|i: int| 0 <= i < WORDS ==> #[trigger] n.ram[frame::fi(pa)][i] == 0
            &&& n.fa.used[g] == m.fa.used[g] - 1
            &&& forall|x: int| 0 <= x < MAX_CG && x != g ==> #[trigger] n.fa.used[x] == m.fa.used[x]
            &&& n.fa.next_frame() == pa
            &&& frame::in_ram(other) && other != pa ==> n.ram[frame::fi(other)] == m.ram[frame::fi(other)]
                && n.fa.owner[frame::fi(other)] == m.fa.owner[frame::fi(other)] && n.free(other) == m.free(other)
        }),
{
    frame::law_dealloc(m, pa);
    let g = m.fa.owner[frame::fi(pa)] as int;
    assert(m.fa.used[g] == frame::charged(m.fa.owner, g, MAX_FRAMES as int));
    frame::lemma_charged_pos(m.fa.owner, frame::fi(pa), MAX_FRAMES as int);
    if frame::in_ram(other) && other != pa {
        assert(frame::fi(other) != frame::fi(pa));
    }
}

} // verus!
