//! The kernel heap: free runs of memory in the order of their addresses, no
//! two of them adjacent. A run in use starts with a header of sixteen bytes
//! that holds its size.
use vstd::prelude::*;

verus! {

pub const HEAP_SIZE: u64 = 0x80_0000;

pub const HEADER: u64 = 16;

#[derive(Clone, Copy, PartialEq, Eq, Structural, Debug)]
pub struct Run {
    pub start: u64,
    pub size: u64,
}

impl Run {
    pub open spec fn end(self) -> int {
        self.start + self.size
    }
}

pub struct HeapAlloc {
    pub free: Vec<Run>,
    /// Runs in use, with their headers.
    pub used: Vec<Run>,
}

#[verifier::ext_equal]
pub struct HeapV {
    pub free: Seq<Run>,
    pub used: Seq<Run>,
}

impl View for HeapAlloc {
    type V = HeapV;

    open spec fn view(&self) -> HeapV {
        HeapV { free: self.free@, used: self.used@ }
    }
}

pub open spec fn apart(a: Run, b: Run) -> bool {
    a.end() <= b.start || b.end() <= a.start
}

pub open spec fn run_ok(r: Run) -> bool {
    r.start % 16 == 0 && r.size >= 16 && r.end() <= u64::MAX - 64
}

impl HeapV {
    /// Free runs are in order with something between them, and no two runs
    /// overlap.
    pub open spec fn wf(self) -> bool {
        &&& forall|i: int| 0 <= i < self.free.len() ==> run_ok(#[trigger] self.free[i])
        &&& forall|i: int| 0 <= i < self.used.len() ==> run_ok(#[trigger] self.used[i])
        &&& forall|i: int, j: int|
            0 <= i < j < self.free.len() ==> (#[trigger] self.free[i]).end() < (#[trigger] self.free[j]).start
        &&& forall|i: int, j: int|
            0 <= i < j < self.used.len() ==> apart(#[trigger] self.used[i], #[trigger] self.used[j])
        &&& forall|i: int, j: int|
            0 <= i < self.free.len() && 0 <= j < self.used.len() ==> apart(
                #[trigger] self.free[i],
                #[trigger] self.used[j],
            )
    }
}

/// Bytes of the first `n` runs.
pub open spec fn total(s: Seq<Run>, n: int) -> int
    decreases n,
{
    if n <= 0 {
        0
    } else {
        total(s, n - 1) + s[n - 1].size
    }
}

pub open spec fn largest(s: Seq<Run>, n: int) -> int
    decreases n,
{
    if n <= 0 {
        0
    } else if s[n - 1].size > largest(s, n - 1) {
        s[n - 1].size as int
    } else {
        largest(s, n - 1)
    }
}

/// The heap: one free run from the first multiple of sixteen on.
pub fn init(start: u64) -> (h: HeapAlloc)
    requires
        start + HEAP_SIZE <= u64::MAX - 64,
    ensures
        h@.wf(),
        h@.used == Seq::<Run>::empty(),
        ({
            let a = (start + 15) / 16 * 16;
            h@.free.len() == 1 && h@.free[0].start == a && h@.free[0].size == start + HEAP_SIZE
                - a
        }),
{
    let a: u64 = (start + 15) / 16 * 16;
    let mut free: Vec<Run> = Vec::new();
    free.push(Run { start: a, size: start + HEAP_SIZE - a });
    HeapAlloc { free, used: Vec::new() }
}

// ---- taking ----

/// Bytes a request takes: rounded up to sixteen, with the header.
pub open spec fn need(size: u64) -> int {
    (size + 15) / 16 * 16 + HEADER
}

/// The first free run from `i` on that is large enough.
pub open spec fn first_fit(free: Seq<Run>, n: int, i: int) -> Option<int>
    decreases free.len() - i,
{
    if i >= free.len() {
        None
    } else if free[i].size >= n {
        Some(i)
    } else {
        first_fit(free, n, i + 1)
    }
}

/// The heap after a request, and the address after the header. The rest of
/// the run stays free, unless it is smaller than a header.
pub open spec fn taken(h: HeapV, size: u64) -> (HeapV, Option<u64>) {
    let n = need(size);
    match first_fit(h.free, n, 0) {
        None => (h, None),
        Some(i) => {
            let r = h.free[i];
            let p = (r.start + HEADER) as u64;
            if r.size >= n + 16 {
                (
                    HeapV {
                        free: h.free.update(
                            i,
                            Run { start: (r.start + n) as u64, size: (r.size - n) as u64 },
                        ),
                        used: h.used.push(Run { start: r.start, size: n as u64 }),
                    },
                    Some(p),
                )
            } else {
                (HeapV { free: h.free.remove(i), used: h.used.push(r) }, Some(p))
            }
        },
    }
}

pub proof fn lemma_first_fit(free: Seq<Run>, n: int, i: int)
    requires
        0 <= i <= free.len(),
    ensures
        match first_fit(free, n, i) {
            Some(k) => i <= k < free.len() && free[k].size >= n && forall|j: int|
                i <= j < k ==> (#[trigger] free[j]).size < n,
            None => forall|j: int| i <= j < free.len() ==> (#[trigger] free[j]).size < n,
        },
    decreases free.len() - i,
{
    if i < free.len() && free[i].size < n {
        lemma_first_fit(free, n, i + 1);
    }
}

proof fn lemma_taken_wf(h: HeapV, size: u64)
    requires
        h.wf(),
        size <= u64::MAX - 64,
    ensures
        taken(h, size).0.wf(),
{
    let n = need(size);
    lemma_first_fit(h.free, n, 0);
    if let Some(i) = first_fit(h.free, n, 0) {
        let r = h.free[i];
        let k = taken(h, size).0;
        assert(run_ok(r));
        let u = k.used[h.used.len() as int];
        assert(u.start == r.start && u.end() <= r.end());
        assert forall|a: int| 0 <= a < k.free.len() implies run_ok(#[trigger] k.free[a]) by {
            if r.size < n + 16 {
                assert(k.free[a] == h.free[if a < i {
                    a
                } else {
                    a + 1
                }]);
            } else if a != i {
                assert(k.free[a] == h.free[a]);
            }
        }
        assert forall|a: int, b: int| 0 <= a < b < k.free.len() implies (#[trigger] k.free[a]).end() < (
        #[trigger] k.free[b]).start by {
            if r.size < n + 16 {
                let x = if a < i {
                    a
                } else {
                    a + 1
                };
                let y = if b < i {
                    b
                } else {
                    b + 1
                };
                assert(k.free[a] == h.free[x] && k.free[b] == h.free[y]);
            } else {
                assert(h.free[a].end() < h.free[b].start);
            }
        }
        assert forall|a: int, b: int| 0 <= a < b < k.used.len() implies apart(
            #[trigger] k.used[a],
            #[trigger] k.used[b],
        ) by {
            if b == h.used.len() {
                assert(apart(h.free[i], h.used[a]));
            } else {
                assert(apart(h.used[a], h.used[b]));
            }
        }
        assert forall|a: int, b: int| 0 <= a < k.free.len() && 0 <= b < k.used.len() implies apart(
            #[trigger] k.free[a],
            #[trigger] k.used[b],
        ) by {
            let x = if r.size < n + 16 && a >= i {
                a + 1
            } else {
                a
            };
            if b == h.used.len() {
                if x < i {
                    assert(h.free[x].end() < h.free[i].start);
                } else if x > i {
                    assert(h.free[i].end() < h.free[x].start);
                }
            } else {
                assert(apart(h.free[x], h.used[b]));
            }
        }
    }
}

impl HeapAlloc {
    /// Memory for a request, aligned to sixteen bytes; None when no free run
    /// is large enough.
    pub fn take(&mut self, size: u64) -> (r: Option<u64>)
        requires
            old(self)@.wf(),
            size <= u64::MAX - 64,
        ensures
            final(self)@.wf(),
            (final(self)@, r) == taken(old(self)@, size),
    {
        let n: u64 = (size + 15) / 16 * 16 + HEADER;
        let mut i: usize = 0;
        proof {
            lemma_taken_wf(self@, size);
        }
        while i < self.free.len()
            invariant
                i <= self.free@.len(),
                *self == *old(self),
                self@.wf(),
                taken(self@, size).0.wf(),
                n == need(size),
                size <= u64::MAX - 64,
                first_fit(self.free@, n as int, 0) == first_fit(self.free@, n as int, i as int),
            decreases self.free@.len() - i,
        {
            let r = self.free[i];
            assert(run_ok(self@.free[i as int]));
            if r.size >= n {
                if r.size - n >= 16 {
                    self.free.set(i, Run { start: r.start + n, size: r.size - n });
                    self.used.push(Run { start: r.start, size: n });
                } else {
                    let _ = self.free.remove(i);
                    self.used.push(r);
                }
                assert(self@ =~= taken(old(self)@, size).0);
                return Some(r.start + HEADER);
            }
            i += 1;
        }
        None
    }
}

// ---- giving back ----

/// Free runs that start before an address.
pub open spec fn below(free: Seq<Run>, a: u64, i: int) -> int
    decreases free.len() - i,
{
    if i < free.len() && free[i].start < a {
        below(free, a, i + 1)
    } else {
        i
    }
}

/// The free runs with one more in its place, joined to its neighbours where
/// they touch.
pub open spec fn joined(free: Seq<Run>, r: Run) -> Seq<Run> {
    let k = below(free, r.start, 0);
    let with_next = k < free.len() && r.end() == free[k].start;
    let m = if with_next {
        Run { start: r.start, size: (r.size + free[k].size) as u64 }
    } else {
        r
    };
    let rest = if with_next {
        free.remove(k)
    } else {
        free
    };
    if k > 0 && free[k - 1].end() == r.start {
        rest.update(
            k - 1,
            Run { start: free[k - 1].start, size: (free[k - 1].size + m.size) as u64 },
        )
    } else {
        rest.insert(k, m)
    }
}

/// Place of the run that starts at an address among those in use, from `i` on.
pub open spec fn run_at(used: Seq<Run>, a: u64, i: int) -> Option<int>
    decreases used.len() - i,
{
    if i >= used.len() {
        None
    } else if used[i].start == a {
        Some(i)
    } else {
        run_at(used, a, i + 1)
    }
}

/// The heap after the memory at `p` is given back; nothing happens for an
/// address that is not in use.
pub open spec fn given(h: HeapV, p: u64) -> HeapV {
    if p < HEADER {
        h
    } else {
        match run_at(h.used, (p - HEADER) as u64, 0) {
            None => h,
            Some(i) => HeapV { free: joined(h.free, h.used[i]), used: h.used.remove(i) },
        }
    }
}

pub proof fn lemma_below(free: Seq<Run>, a: u64, i: int)
    requires
        0 <= i <= free.len(),
        forall|x: int, y: int|
            0 <= x < y < free.len() ==> (#[trigger] free[x]).end() < (#[trigger] free[y]).start,
        forall|x: int| 0 <= x < i ==> (#[trigger] free[x]).start < a,
    ensures
        i <= below(free, a, i) <= free.len(),
        forall|x: int| 0 <= x < below(free, a, i) ==> (#[trigger] free[x]).start < a,
        forall|x: int| below(free, a, i) <= x < free.len() ==> (#[trigger] free[x]).start >= a,
    decreases free.len() - i,
{
    if i < free.len() && free[i].start < a {
        lemma_below(free, a, i + 1);
    } else if i < free.len() {
        assert forall|x: int| i <= x < free.len() implies (#[trigger] free[x]).start >= a by {
            if x > i {
                assert(free[i].end() < free[x].start);
            }
        }
    }
}

/// Joining a run to free runs that it does not overlap.
proof fn lemma_joined(free: Seq<Run>, r: Run)
    requires
        run_ok(r),
        forall|i: int| 0 <= i < free.len() ==> run_ok(#[trigger] free[i]),
        forall|x: int, y: int|
            0 <= x < y < free.len() ==> (#[trigger] free[x]).end() < (#[trigger] free[y]).start,
        forall|i: int| 0 <= i < free.len() ==> apart(#[trigger] free[i], r),
    ensures
        ({
            let g = joined(free, r);
            &&& forall|i: int| 0 <= i < g.len() ==> run_ok(#[trigger] g[i])
            &&& forall|x: int, y: int|
                0 <= x < y < g.len() ==> (#[trigger] g[x]).end() < (#[trigger] g[y]).start
            &&& forall|i: int, u: Run|
                0 <= i < g.len() && apart(u, r) && (forall|x: int|
                    0 <= x < free.len() ==> apart(#[trigger] free[x], u)) && u.size > 0 ==> #[trigger] apart(
                    g[i],
                    u,
                )
        }),
{
    let k = below(free, r.start, 0);
    lemma_below(free, r.start, 0);
    let g = joined(free, r);
    let nx = k < free.len() && r.end() == free[k].start;
    let pv = k > 0 && free[k - 1].end() == r.start;
    if k > 0 {
        assert(apart(free[k - 1], r));
        assert(free[k - 1].end() <= r.start);
    }
    if k < free.len() {
        assert(apart(free[k], r));
        assert(r.end() <= free[k].start);
    }
    // Where the runs of the new list come from.
    let m = if pv {
        k - 1
    } else {
        k
    };
    let skip = if nx {
        1int
    } else {
        0
    };
    let more = if pv {
        0int
    } else {
        1
    };
    assert(g.len() == free.len() - skip + more);
    assert(g[m].start == if pv {
        free[k - 1].start
    } else {
        r.start
    });
    assert(g[m].end() == if nx {
        free[k].end()
    } else {
        r.end()
    });
    assert forall|i: int| 0 <= i < m implies g[i] == free[i] by {}
    assert forall|i: int| m < i < g.len() implies g[i] == free[i + skip - more] by {}
    assert forall|i: int| 0 <= i < g.len() implies run_ok(#[trigger] g[i]) by {
        if i > m {
            assert(run_ok(free[i + skip - more]));
        } else if i < m {
            assert(run_ok(free[i]));
        } else {
            if nx {
                assert(run_ok(free[k]));
            }
            if pv {
                assert(run_ok(free[k - 1]));
            }
        }
    }
    assert forall|x: int, y: int| 0 <= x < y < g.len() implies (#[trigger] g[x]).end() < (
    #[trigger] g[y]).start by {
        if y < m {
            assert(free[x].end() < free[y].start);
        } else if x > m {
            assert(free[x + skip - more].end() < free[y + skip - more].start);
        } else if x < m && y == m {
            if pv {
                assert(free[x].end() < free[k - 1].start);
            } else {
                if x < k - 1 {
                    assert(free[x].end() < free[k - 1].start);
                }
            }
        } else if x == m {
            let z = y + skip - more;
            if nx {
                assert(free[k].end() < free[z].start);
            } else if z > k {
                assert(free[k].end() < free[z].start);
            }
        } else {
            assert(free[x].end() < free[y + skip - more].start);
        }
    }
    assert forall|i: int, u: Run|
        0 <= i < g.len() && apart(u, r) && (forall|x: int|
            0 <= x < free.len() ==> apart(#[trigger] free[x], u)) && u.size > 0 implies #[trigger] apart(
        g[i],
        u,
    ) by {
        if i < m {
            assert(apart(free[i], u));
        } else if i > m {
            assert(apart(free[i + skip - more], u));
        } else {
            if nx {
                assert(apart(free[k], u));
            }
            if pv {
                assert(apart(free[k - 1], u));
            }
        }
    }
}

pub proof fn lemma_run_at(used: Seq<Run>, a: u64, i: int)
    requires
        0 <= i <= used.len(),
    ensures
        match run_at(used, a, i) {
            Some(k) => i <= k < used.len() && used[k].start == a,
            None => forall|j: int| i <= j < used.len() ==> (#[trigger] used[j]).start != a,
        },
    decreases used.len() - i,
{
    if i < used.len() && used[i].start != a {
        lemma_run_at(used, a, i + 1);
    }
}

proof fn lemma_given_wf(h: HeapV, p: u64)
    requires
        h.wf(),
    ensures
        given(h, p).wf(),
{
    if p >= HEADER {
        lemma_run_at(h.used, (p - HEADER) as u64, 0);
        if let Some(i) = run_at(h.used, (p - HEADER) as u64, 0) {
            let r = h.used[i];
            let g = given(h, p);
            assert forall|x: int| 0 <= x < h.free.len() implies apart(#[trigger] h.free[x], r) by {
                assert(apart(h.free[x], h.used[i]));
            }
            lemma_joined(h.free, r);
            assert forall|j: int| 0 <= j < g.used.len() implies run_ok(#[trigger] g.used[j]) by {
                assert(g.used[j] == h.used[if j < i {
                    j
                } else {
                    j + 1
                }]);
            }
            assert forall|a: int, b: int| 0 <= a < b < g.used.len() implies apart(
                #[trigger] g.used[a],
                #[trigger] g.used[b],
            ) by {
                let x = if a < i {
                    a
                } else {
                    a + 1
                };
                let y = if b < i {
                    b
                } else {
                    b + 1
                };
                assert(apart(h.used[x], h.used[y]));
            }
            assert forall|a: int, b: int| 0 <= a < g.free.len() && 0 <= b < g.used.len() implies apart(
                #[trigger] g.free[a],
                #[trigger] g.used[b],
            ) by {
                let y = if b < i {
                    b
                } else {
                    b + 1
                };
                let u = h.used[y];
                assert(g.used[b] == u);
                assert(run_ok(u));
                if y < i {
                    assert(apart(h.used[y], h.used[i]));
                } else {
                    assert(apart(h.used[i], h.used[y]));
                }
                assert forall|x: int| 0 <= x < h.free.len() implies apart(#[trigger] h.free[x], u) by {
                    assert(apart(h.free[x], h.used[y]));
                }
                assert(apart(joined(h.free, r)[a], u));
            }
        }
    }
}

impl HeapAlloc {
    /// Gives memory back. Its run joins its free neighbours.
    pub fn give(&mut self, p: u64)
        requires
            old(self)@.wf(),
        ensures
            final(self)@.wf(),
            final(self)@ == given(old(self)@, p),
    {
        if p < HEADER {
            return;
        }
        let a: u64 = p - HEADER;
        proof {
            lemma_given_wf(self@, p);
            lemma_run_at(self@.used, a, 0);
        }
        let mut u: usize = 0;
        while u < self.used.len() && self.used[u].start != a
            invariant
                u <= self.used@.len(),
                *self == *old(self),
                run_at(self.used@, a, 0) == run_at(self.used@, a, u as int),
            decreases self.used@.len() - u,
        {
            u += 1;
        }
        if u >= self.used.len() {
            return;
        }
        let r = self.used[u];
        let ghost f0 = self.free@;
        proof {
            assert(run_ok(self@.used[u as int]));
            assert forall|x: int| 0 <= x < f0.len() implies apart(#[trigger] f0[x], r) by {
                assert(apart(self@.free[x], self@.used[u as int]));
            }
            lemma_below(f0, r.start, 0);
        }
        let mut k: usize = 0;
        while k < self.free.len() && self.free[k].start < r.start
            invariant
                k <= self.free@.len(),
                *self == *old(self),
                f0 == self.free@,
                below(f0, r.start, 0) == below(f0, r.start, k as int),
            decreases self.free@.len() - k,
        {
            k += 1;
        }
        let mut m = r;
        let n: usize = self.free.len();
        if k < n {
            assert(run_ok(old(self)@.free[k as int]));
            let nx = self.free[k];
            if r.start + r.size == nx.start {
                m = Run { start: r.start, size: r.size + nx.size };
                let _ = self.free.remove(k);
            }
        }
        let mut joins = false;
        if k > 0 {
            assert(run_ok(old(self)@.free[k - 1]));
            let pv = self.free[k - 1];
            if pv.start + pv.size == r.start {
                self.free.set(k - 1, Run { start: pv.start, size: pv.size + m.size });
                joins = true;
            }
        }
        if !joins {
            self.free.insert(k, m);
        }
        assert(self.free@ =~= joined(f0, r));
        let _ = self.used.remove(u);
        assert(self@ =~= given(old(self)@, p));
    }
}

/// Free bytes, and the size of the largest free run.
pub fn stats(h: &HeapAlloc) -> (r: (u64, u64))
    requires
        h@.wf(),
    ensures
        r.0 == total(h@.free, h@.free.len() as int),
        r.1 == largest(h@.free, h@.free.len() as int),
{
    let mut t: u64 = 0;
    let mut l: u64 = 0;
    let mut i: usize = 0;
    while i < h.free.len()
        invariant
            h@.wf(),
            i <= h.free@.len(),
            t == total(h@.free, i as int),
            l == largest(h@.free, i as int),
            i > 0 ==> t <= h@.free[i - 1].end(),
            i == 0 ==> t == 0,
        decreases h.free@.len() - i,
    {
        let r = h.free[i];
        assert(run_ok(h@.free[i as int]));
        if i > 0 {
            assert(h@.free[i - 1].end() < h@.free[i as int].start);
        }
        t = t + r.size;
        if r.size > l {
            l = r.size;
        }
        i += 1;
    }
    (t, l)
}

// ---- laws ----

/// Memory that is handed out overlaps no memory in use, and is as large as
/// was asked for.
pub proof fn law_blocks_apart(h: HeapV, size: u64, j: int)
    requires
        h.wf(),
        size <= u64::MAX - 64,
        0 <= j < h.used.len(),
    ensures
        taken(h, size).1 matches Some(p) ==> p % 16 == 0 && (p + size <= h.used[j].start
            || h.used[j].end() <= p - HEADER),
{
    lemma_first_fit(h.free, need(size), 0);
    if let Some(i) = first_fit(h.free, need(size), 0) {
        assert(run_ok(h.free[i]));
        assert(run_ok(h.used[j]));
        assert(apart(h.free[i], h.used[j]));
    }
}

/// What is taken and given back leaves the heap as it was: nothing is lost to
/// fragments.
pub proof fn law_give_undoes_take(h: HeapV, size: u64)
    requires
        h.wf(),
        size <= u64::MAX - 64,
    ensures
        taken(h, size).1 matches Some(p) ==> given(taken(h, size).0, p) == h,
{
    let n = need(size);
    lemma_first_fit(h.free, n, 0);
    lemma_taken_wf(h, size);
    if let Some(i) = first_fit(h.free, n, 0) {
        let r = h.free[i];
        let (k, o) = taken(h, size);
        let p = o->0;
        assert(run_ok(r));
        let last = h.used.len() as int;
        let u = k.used[last];
        lemma_run_at(k.used, u.start, 0);
        assert forall|j: int| 0 <= j < last implies (#[trigger] k.used[j]).start != u.start by {
            assert(k.used[j] == h.used[j]);
            assert(apart(h.free[i], h.used[j]));
            assert(run_ok(h.used[j]));
        }
        assert(k.used[last].start == u.start);
        assert(run_at(k.used, u.start, 0) == Some(last));
        assert(k.used.remove(last) =~= h.used);
        lemma_below(k.free, u.start, 0);
        let b = below(k.free, u.start, 0);
        if i > 0 {
            assert(h.free[i - 1].end() < h.free[i].start);
            assert(k.free[i - 1] == h.free[i - 1]);
        }
        assert forall|x: int| 0 <= x < i implies (#[trigger] k.free[x]).start < u.start by {
            assert(h.free[x].end() < h.free[i].start);
        }
        if r.size >= n + 16 {
            assert(k.free[i].start >= u.start);
            assert(b == i);
            assert(joined(k.free, u) =~= h.free);
        } else {
            if i + 1 < h.free.len() {
                assert(h.free[i].end() < h.free[i + 1].start);
                assert(k.free[i] == h.free[i + 1]);
            }
            assert(b == i);
            assert(joined(k.free, u) =~= h.free);
        }
    }
}

} // verus!
