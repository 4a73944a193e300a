//! Physical frames: the memory they hold, the allocator, and the charge of
//! each frame to a group with an optional cap.
use vstd::prelude::*;

verus! {

pub const PAGE_SIZE: u64 = 4096;

pub const RAM_BASE: u64 = 0x8000_0000;

pub const MEMORY_END: u64 = 0x8800_0000;

/// Frames between `RAM_BASE` and `MEMORY_END`.
pub const MAX_FRAMES: usize = 32768;

/// Groups frames are charged to.
pub const MAX_CG: usize = 256;

/// Owner mark of a frame that is charged to nobody.
pub const NO_OWNER: u16 = 0xffff;

/// 64-bit words in a frame.
pub const WORDS: usize = 512;

// ---- addresses ----

/// Address of a whole frame inside RAM.
pub open spec fn in_ram(pa: u64) -> bool {
    RAM_BASE <= pa < MEMORY_END && pa % PAGE_SIZE == 0
}

/// Index of the frame holding `pa`.
pub open spec fn fi(pa: u64) -> int {
    (pa - RAM_BASE) / (PAGE_SIZE as int)
}

pub open spec fn zero_frame() -> Seq<u64> {
    Seq::new(WORDS as nat, |i: int| 0u64)
}

// ---- model ----

#[verifier::ext_equal]
pub struct FrameV {
    /// Next frame never handed out yet.
    pub cur: u64,
    pub end: u64,
    /// Frames given back, last in first out.
    pub recycled: Seq<u64>,
    /// Group each frame is charged to.
    pub owner: Seq<u16>,
    pub used: Seq<u64>,
    /// Cap per group; 0 is no cap.
    pub lim: Seq<u64>,
}

/// Memory contents, frame by frame, and the allocator.
#[verifier::ext_equal]
pub struct MemV {
    pub ram: Seq<Seq<u64>>,
    pub fa: FrameV,
}

/// Frames charged to group `cg` among the first `n`.
pub open spec fn charged(owner: Seq<u16>, cg: int, n: int) -> nat
    decreases n,
{
    if n <= 0 {
        0
    } else {
        charged(owner, cg, n - 1) + if owner[n - 1] == cg {
            1nat
        } else {
            0
        }
    }
}

/// Group a request is billed to.
pub open spec fn bill(cg: usize) -> int {
    if cg < MAX_CG {
        cg as int
    } else {
        MAX_CG - 1
    }
}

impl FrameV {
    /// The frame at `pa` can be handed out.
    pub open spec fn free(self, pa: u64) -> bool {
        self.recycled.contains(pa) || (self.cur <= pa && pa + PAGE_SIZE <= self.end && pa % PAGE_SIZE == 0)
    }

    pub open spec fn wf(self) -> bool {
        &&& self.owner.len() == MAX_FRAMES
        &&& self.used.len() == MAX_CG
        &&& self.lim.len() == MAX_CG
        &&& RAM_BASE <= self.cur <= self.end
        &&& self.end == MEMORY_END
        &&& self.cur % PAGE_SIZE == 0
        &&& self.recycled.no_duplicates()
        &&& forall|i: int|
            0 <= i < self.recycled.len() ==> in_ram(#[trigger] self.recycled[i]) && self.recycled[i]
                < self.cur
        &&& forall|pa: u64| #[trigger] self.free(pa) ==> self.owner[fi(pa)] == NO_OWNER
        &&& forall|cg: int| 0 <= cg < MAX_CG ==> #[trigger] self.used[cg] == charged(
            self.owner,
            cg,
            MAX_FRAMES as int,
        )
    }

    /// Group `cg` may be charged one more frame.
    pub open spec fn under_cap(self, cg: usize) -> bool {
        self.lim[bill(cg)] == 0 || self.used[bill(cg)] < self.lim[bill(cg)]
    }

    /// Some frame is left.
    pub open spec fn has_frame(self) -> bool {
        self.recycled.len() > 0 || self.cur + PAGE_SIZE <= self.end
    }

    pub open spec fn can_alloc(self, cg: usize) -> bool {
        self.under_cap(cg) && self.has_frame()
    }

    /// Frames left.
    pub open spec fn free_count(self) -> nat {
        (self.recycled.len() + (self.end - self.cur) / (PAGE_SIZE as int)) as nat
    }

    /// How many more frames group `cg` can be given.
    pub open spec fn room(self, cg: usize) -> nat {
        let left = (self.lim[bill(cg)] - self.used[bill(cg)]) as int;
        if self.lim[bill(cg)] == 0 || left >= self.free_count() {
            self.free_count()
        } else if left >= 0 {
            left as nat
        } else {
            0
        }
    }

    /// The allocator after handing out `k` frames to `cg`.
    pub open spec fn grabs(self, cg: usize, k: nat) -> FrameV
        decreases k,
    {
        if k == 0 {
            self
        } else {
            self.grabs(cg, (k - 1) as nat).grab(cg)
        }
    }

    /// The frame handed out next: the one given back last, else the next
    /// untouched one.
    pub open spec fn next_frame(self) -> u64 {
        if self.recycled.len() > 0 {
            self.recycled.last()
        } else {
            self.cur
        }
    }

    /// The allocator after handing out one frame to `cg`.
    pub open spec fn grab(self, cg: usize) -> FrameV {
        let pa = self.next_frame();
        FrameV {
            cur: if self.recycled.len() > 0 {
                self.cur
            } else {
                (self.cur + PAGE_SIZE) as u64
            },
            recycled: if self.recycled.len() > 0 {
                self.recycled.drop_last()
            } else {
                self.recycled
            },
            owner: self.owner.update(fi(pa), bill(cg) as u16),
            used: self.used.update(bill(cg), (self.used[bill(cg)] + 1) as u64),
            ..self
        }
    }

    /// The allocator after taking a frame back.
    pub open spec fn dealloc(self, pa: u64) -> FrameV {
        let cg = self.owner[fi(pa)] as int;
        FrameV {
            recycled: self.recycled.push(pa),
            owner: self.owner.update(fi(pa), NO_OWNER),
            used: if cg < MAX_CG {
                self.used.update(cg, (self.used[cg] - 1) as u64)
            } else {
                self.used
            },
            ..self
        }
    }
}

impl MemV {
    pub open spec fn wf(self) -> bool {
        &&& self.fa.wf()
        &&& self.ram.len() == MAX_FRAMES
        &&& forall|f: int| 0 <= f < MAX_FRAMES ==> (#[trigger] self.ram[f]).len() == WORDS
        &&& forall|i: int|
            0 <= i < self.fa.recycled.len() ==> self.ram[fi(#[trigger] self.fa.recycled[i])]
                == zero_frame()
    }

    pub open spec fn free(self, pa: u64) -> bool {
        self.fa.free(pa)
    }

    /// A frame in use: inside RAM and not free.
    pub open spec fn live(self, pa: u64) -> bool {
        in_ram(pa) && !self.free(pa)
    }

    /// One zeroed frame more in use.
    pub open spec fn grab(self, cg: usize) -> MemV {
        MemV {
            ram: self.ram.update(fi(self.fa.next_frame()), zero_frame()),
            fa: self.fa.grab(cg),
        }
    }

    /// A frame given back; it is zeroed at once.
    pub open spec fn dealloc(self, pa: u64) -> MemV {
        MemV { ram: self.ram.update(fi(pa), zero_frame()), fa: self.fa.dealloc(pa) }
    }

    /// Group `cg` with another limit.
    pub open spec fn limited(self, cg: usize, lim: u64) -> MemV {
        if cg < MAX_CG {
            MemV { fa: FrameV { lim: self.fa.lim.update(cg as int, lim), ..self.fa }, ..self }
        } else {
            self
        }
    }

    /// Word `i` of the frame at `pa` set to `v`.
    pub open spec fn store(self, pa: u64, i: int, v: u64) -> MemV {
        MemV { ram: self.ram.update(fi(pa), self.ram[fi(pa)].update(i, v)), ..self }
    }
}

// ---- lemmas ----

proof fn lemma_charged_update(owner: Seq<u16>, i: int, v: u16, cg: int, n: int)
    requires
        0 <= i < owner.len(),
        0 <= n <= owner.len(),
    ensures
        charged(owner.update(i, v), cg, n) == charged(owner, cg, n) + (if i < n && v == cg {
            1int
        } else {
            0
        }) - (if i < n && owner[i] == cg {
            1int
        } else {
            0
        }),
    decreases n,
{
    if n > 0 {
        lemma_charged_update(owner, i, v, cg, n - 1);
    }
}

pub proof fn lemma_charged_bound(owner: Seq<u16>, cg: int, n: int)
    requires
        0 <= n,
    ensures
        charged(owner, cg, n) <= n,
    decreases n,
{
    if n > 0 {
        lemma_charged_bound(owner, cg, n - 1);
    }
}

pub proof fn lemma_charged_pos(owner: Seq<u16>, i: int, n: int)
    requires
        0 <= i < n,
    ensures
        charged(owner, owner[i] as int, n) >= 1,
    decreases n,
{
    if i < n - 1 {
        lemma_charged_pos(owner, i, n - 1);
    }
}

/// What handing out a frame keeps and changes: the frame was free and is not
/// any more, no other frame changes state, the charge stays under the cap.
pub proof fn law_alloc(m: MemV, cg: usize)
    requires
        m.wf(),
        m.fa.can_alloc(cg),
    ensures
        m.grab(cg).wf(),
        in_ram(m.fa.next_frame()),
        m.free(m.fa.next_frame()),
        m.grab(cg).live(m.fa.next_frame()),
        forall|pa: u64|
            #![trigger m.grab(cg).free(pa)]
            #![trigger m.free(pa)]
            m.grab(cg).free(pa) <==> m.free(pa) && pa != m.fa.next_frame(),
        m.fa.lim[bill(cg)] != 0 ==> m.grab(cg).fa.used[bill(cg)] <= m.fa.lim[bill(cg)],
{
    let pa = m.fa.next_frame();
    let a = m.fa;
    let b = a.grab(cg);
    if a.recycled.len() > 0 {
        assert(a.recycled.contains(pa));
        assert forall|q: u64| b.free(q) <==> a.free(q) && q != pa by {
            if b.recycled.contains(q) {
                let i = choose|i: int| 0 <= i < b.recycled.len() && b.recycled[i] == q;
                assert(a.recycled[i] == q);
            }
            if a.recycled.contains(q) && q != pa {
                let i = choose|i: int| 0 <= i < a.recycled.len() && a.recycled[i] == q;
                assert(b.recycled[i] == q);
            }
            if q == pa && b.recycled.contains(q) {
                let i = choose|i: int| 0 <= i < b.recycled.len() && b.recycled[i] == q;
                assert(a.recycled[i] == a.recycled[a.recycled.len() - 1]);
            }
        }
    } else {
        assert forall|q: u64| b.free(q) <==> a.free(q) && q != pa by {
            assert(!a.recycled.contains(q));
        }
    }
    assert(a.free(pa));
    assert forall|c: int| 0 <= c < MAX_CG implies #[trigger] b.used[c] == charged(
        b.owner,
        c,
        MAX_FRAMES as int,
    ) by {
        lemma_charged_update(a.owner, fi(pa), bill(cg) as u16, c, MAX_FRAMES as int);
        lemma_charged_bound(a.owner, c, MAX_FRAMES as int);
        assert(a.used[c] == charged(a.owner, c, MAX_FRAMES as int));
    }
    assert forall|q: u64| #[trigger] b.free(q) implies b.owner[fi(q)] == NO_OWNER by {
        assert(a.free(q));
        if fi(q) == fi(pa) {
            assert(in_ram(q)) by {
                if a.recycled.contains(q) {
                    let i = choose|i: int| 0 <= i < a.recycled.len() && a.recycled[i] == q;
                    assert(in_ram(a.recycled[i]));
                }
            }
        }
    }
    let n = m.grab(cg);
    assert forall|i: int| 0 <= i < n.fa.recycled.len() implies n.ram[fi(#[trigger] n.fa.recycled[i])]
        == zero_frame() by {
        assert(m.fa.recycled[i] == n.fa.recycled[i]);
    }
    lemma_charged_bound(a.owner, bill(cg), MAX_FRAMES as int);
}

/// A group can be given a frame while it has room, and each one takes a frame
/// of room.
pub proof fn lemma_room(m: MemV, cg: usize)
    requires
        m.wf(),
    ensures
        m.fa.can_alloc(cg) == (m.fa.room(cg) >= 1),
        m.fa.can_alloc(cg) ==> m.fa.grab(cg).room(cg) == m.fa.room(cg) - 1,
{
    lemma_charged_bound(m.fa.owner, bill(cg), MAX_FRAMES as int);
    assert(m.fa.used[bill(cg)] == charged(m.fa.owner, bill(cg), MAX_FRAMES as int));
    if m.fa.can_alloc(cg) {
        law_alloc(m, cg);
    }
}

/// Handing out frames within the room uses up exactly that much of it.
pub proof fn lemma_grabs_room(m: MemV, cg: usize, k: nat) -> (n: MemV)
    requires
        m.wf(),
        k <= m.fa.room(cg),
    ensures
        n.wf(),
        n.fa == m.fa.grabs(cg, k),
        n.fa.room(cg) == m.fa.room(cg) - k,
    decreases k,
{
    if k == 0 {
        m
    } else {
        let p = lemma_grabs_room(m, cg, (k - 1) as nat);
        lemma_room(p, cg);
        law_alloc(p, cg);
        p.grab(cg)
    }
}

/// What taking a live frame back keeps and changes: only that frame becomes
/// free, and only its owner is discharged.
pub proof fn law_dealloc(m: MemV, pa: u64)
    requires
        m.wf(),
        m.live(pa),
    ensures
        m.dealloc(pa).wf(),
        forall|q: u64|
            #![trigger m.dealloc(pa).free(q)]
            #![trigger m.free(q)]
            m.dealloc(pa).free(q) <==> m.free(q) || q == pa,
        m.fa.recycled.len() < MAX_FRAMES,
{
    let a = m.fa;
    let b = a.dealloc(pa);
    assert forall|q: u64| b.free(q) <==> a.free(q) || q == pa by {
        if b.recycled.contains(q) {
            let i = choose|i: int| 0 <= i < b.recycled.len() && b.recycled[i] == q;
            if i < a.recycled.len() {
                assert(a.recycled[i] == q);
            }
        }
        if a.recycled.contains(q) {
            let i = choose|i: int| 0 <= i < a.recycled.len() && a.recycled[i] == q;
            assert(b.recycled[i] == q);
        }
        assert(b.recycled[b.recycled.len() - 1] == pa);
    }
    assert(b.recycled.no_duplicates()) by {
        assert forall|i: int, j: int|
            0 <= i < b.recycled.len() && 0 <= j < b.recycled.len() && i != j implies b.recycled[i]
            != b.recycled[j] by {
            if i == a.recycled.len() {
                assert(a.recycled.contains(b.recycled[j]));
            } else if j == a.recycled.len() {
                assert(a.recycled.contains(b.recycled[i]));
            }
        }
    }
    let own = a.owner[fi(pa)] as int;
    assert forall|c: int| 0 <= c < MAX_CG implies #[trigger] b.used[c] == charged(
        b.owner,
        c,
        MAX_FRAMES as int,
    ) by {
        lemma_charged_update(a.owner, fi(pa), NO_OWNER, c, MAX_FRAMES as int);
        lemma_charged_pos(a.owner, fi(pa), MAX_FRAMES as int);
        lemma_charged_bound(a.owner, c, MAX_FRAMES as int);
        assert(a.used[c] == charged(a.owner, c, MAX_FRAMES as int));
    }
    assert forall|q: u64| #[trigger] b.free(q) implies b.owner[fi(q)] == NO_OWNER by {
        if q != pa {
            assert(a.free(q));
        }
    }
    let n = m.dealloc(pa);
    assert forall|i: int| 0 <= i < n.fa.recycled.len() implies n.ram[fi(#[trigger] n.fa.recycled[i])]
        == zero_frame() by {
        if i < a.recycled.len() {
            assert(m.fa.recycled[i] == n.fa.recycled[i]);
        }
    }
    lemma_recycled_fits(a, pa);
}

/// Distinct frames of RAM are at most as many as RAM has.
proof fn lemma_distinct_frames(s: Seq<u64>)
    requires
        s.no_duplicates(),
        forall|i: int| 0 <= i < s.len() ==> in_ram(#[trigger] s[i]),
    ensures
        s.len() <= MAX_FRAMES,
{
    let idx = s.map_values(|p: u64| fi(p));
    assert(idx.no_duplicates()) by {
        assert forall|i: int, j: int| 0 <= i < idx.len() && 0 <= j < idx.len() && i != j implies idx[i]
            != idx[j] by {
            assert(in_ram(s[i]) && in_ram(s[j]));
        }
    }
    idx.unique_seq_to_set();
    let all = vstd::set_lib::set_int_range(0, MAX_FRAMES as int);
    vstd::set_lib::lemma_int_range(0, MAX_FRAMES as int);
    assert(idx.to_set().subset_of(all)) by {
        assert forall|x: int| idx.to_set().contains(x) implies all.contains(x) by {
            let i = choose|i: int| 0 <= i < idx.len() && idx[i] == x;
            assert(in_ram(s[i]));
        }
    }
    vstd::set_lib::lemma_len_subset(idx.to_set(), all);
}

/// The recycle list never fills up: it holds distinct frames of RAM, and a
/// live frame is not among them.
proof fn lemma_recycled_fits(a: FrameV, pa: u64)
    requires
        a.wf(),
        in_ram(pa),
        !a.free(pa),
    ensures
        a.recycled.len() < MAX_FRAMES,
{
    let s = a.recycled.push(pa);
    assert forall|i: int, j: int| 0 <= i < s.len() && 0 <= j < s.len() && i != j implies s[i] != s[j] by {
        if i < a.recycled.len() {
            assert(a.recycled.contains(a.recycled[i]));
        }
        if j < a.recycled.len() {
            assert(a.recycled.contains(a.recycled[j]));
        }
    }
    assert forall|i: int| 0 <= i < s.len() implies in_ram(#[trigger] s[i]) by {
        if i < a.recycled.len() {
            assert(in_ram(a.recycled[i]));
        }
    }
    lemma_distinct_frames(s);
}

// ---- executable ----

pub struct FrameAlloc {
    pub cur: u64,
    pub end: u64,
    pub recycled: Vec<u64>,
    pub owner: Vec<u16>,
    pub used: [u64; MAX_CG],
    pub lim: [u64; MAX_CG],
}

/// RAM and its allocator.
pub struct Mem {
    pub ram: Vec<[u64; WORDS]>,
    pub fa: FrameAlloc,
}

impl View for FrameAlloc {
    type V = FrameV;

    open spec fn view(&self) -> FrameV {
        FrameV {
            cur: self.cur,
            end: self.end,
            recycled: self.recycled@,
            owner: self.owner@,
            used: self.used@,
            lim: self.lim@,
        }
    }
}

impl View for Mem {
    type V = MemV;

    open spec fn view(&self) -> MemV {
        MemV { ram: Seq::new(self.ram@.len(), |f: int| self.ram@[f]@), fa: self.fa@ }
    }
}

impl FrameAlloc {
    /// Frame index of a frame address inside RAM.
    pub fn idx(pa: u64) -> (r: Option<usize>)
        ensures
            in_ram(pa) ==> r == Some(fi(pa) as usize),
            !in_ram(pa) ==> r is None,
    {
        if pa < RAM_BASE || pa >= MEMORY_END || pa % PAGE_SIZE != 0 {
            return None;
        }
        Some(((pa - RAM_BASE) / PAGE_SIZE) as usize)
    }
}

/// Memory with every frame from the first page boundary at or above
/// `kernel_end` free, no group capped, and all contents zero.
pub fn init(kernel_end: u64) -> (m: Mem)
    requires
        RAM_BASE <= kernel_end <= MEMORY_END,
    ensures
        m@.wf(),
        m@.fa.cur == (kernel_end + PAGE_SIZE - 1) / PAGE_SIZE as int * PAGE_SIZE,
        m@.fa.end == MEMORY_END,
        m@.fa.recycled == Seq::<u64>::empty(),
        m@.fa.lim == Seq::new(MAX_CG as nat, |i: int| 0u64),
        m@.fa.owner == Seq::new(MAX_FRAMES as nat, |i: int| NO_OWNER),
        m@.ram == Seq::new(MAX_FRAMES as nat, |f: int| zero_frame()),
{
    let zero: [u64; WORDS] = [0; WORDS];
    assert(zero@ =~= zero_frame());
    let cur: u64 = (kernel_end + PAGE_SIZE - 1) / PAGE_SIZE * PAGE_SIZE;
    let m = Mem {
        ram: vec![zero; MAX_FRAMES],
        fa: FrameAlloc {
            cur,
            end: MEMORY_END,
            recycled: Vec::new(),
            owner: vec![NO_OWNER; MAX_FRAMES],
            used: [0; MAX_CG],
            lim: [0; MAX_CG],
        },
    };
    proof {
        assert(m@.ram =~= Seq::new(MAX_FRAMES as nat, |f: int| zero_frame()));
        assert(m@.fa.owner =~= Seq::new(MAX_FRAMES as nat, |i: int| NO_OWNER));
        assert(m@.fa.lim =~= Seq::new(MAX_CG as nat, |i: int| 0u64));
        assert forall|cg: int| 0 <= cg < MAX_CG implies #[trigger] m@.fa.used[cg] == charged(
            m@.fa.owner,
            cg,
            MAX_FRAMES as int,
        ) by {
            lemma_charged_none(m@.fa.owner, cg, MAX_FRAMES as int);
        }
    }
    m
}

proof fn lemma_charged_none(owner: Seq<u16>, cg: int, n: int)
    requires
        0 <= n <= owner.len(),
        0 <= cg < MAX_CG,
        forall|i: int| 0 <= i < n ==> owner[i] == NO_OWNER,
    ensures
        charged(owner, cg, n) == 0,
    decreases n,
{
    if n > 0 {
        lemma_charged_none(owner, cg, n - 1);
    }
}

/// One frame, zeroed, charged to group `cg` (ids past the last group bill to
/// the last). None when the group is at its cap or no frame is left.
pub fn alloc_frame_cg(m: &mut Mem, cg: usize) -> (r: Option<u64>)
    requires
        old(m)@.wf(),
    ensures
        final(m)@.wf(),
        old(m)@.fa.can_alloc(cg) ==> r == Some(old(m)@.fa.next_frame()) && final(m)@ == old(m)@.grab(cg),
        !old(m)@.fa.can_alloc(cg) ==> r is None && final(m)@ == old(m)@,
{
    let c: usize = if cg < MAX_CG {
        cg
    } else {
        MAX_CG - 1
    };
    if m.fa.lim[c] != 0 && m.fa.used[c] >= m.fa.lim[c] {
        return None;
    }
    proof {
        if m@.fa.has_frame() {
            law_alloc(m@, cg);
            assert(m@.fa.free(m@.fa.next_frame()));
        }
        lemma_charged_bound(m@.fa.owner, bill(cg), MAX_FRAMES as int);
        assert(m@.fa.used[bill(cg)] == charged(m@.fa.owner, bill(cg), MAX_FRAMES as int));
    }
    let mut pa: u64 = 0;
    let n = m.fa.recycled.len();
    if n > 0 {
        pa = m.fa.recycled[n - 1];
        m.fa.recycled.pop();
    } else if m.fa.cur + PAGE_SIZE <= m.fa.end {
        pa = m.fa.cur;
        m.fa.cur = m.fa.cur + PAGE_SIZE;
        let zero: [u64; WORDS] = [0; WORDS];
        assert(zero@ =~= zero_frame());
        m.ram.set(((pa - RAM_BASE) / PAGE_SIZE) as usize, zero);
    } else {
        return None;
    }
    let i: usize = ((pa - RAM_BASE) / PAGE_SIZE) as usize;
    m.fa.owner.set(i, c as u16);
    m.fa.used[c] = m.fa.used[c] + 1;
    proof {
        let want = old(m)@.grab(cg);
        if n > 0 {
            let o = old(m)@;
            assert(o.ram[fi(o.fa.recycled[n - 1])] == zero_frame());
        }
        assert(m@.ram =~= want.ram);
        assert(m@.fa =~= want.fa);
    }
    Some(pa)
}

/// Gives a frame back. It is zeroed, and its owner is discharged.
pub fn dealloc_frame(m: &mut Mem, pa: u64)
    requires
        old(m)@.wf(),
        old(m)@.live(pa),
    ensures
        final(m)@.wf(),
        final(m)@ == old(m)@.dealloc(pa),
{
    proof {
        law_dealloc(m@, pa);
        lemma_charged_pos(m@.fa.owner, fi(pa), MAX_FRAMES as int);
        lemma_charged_bound(m@.fa.owner, m@.fa.owner[fi(pa)] as int, MAX_FRAMES as int);
    }
    let zero: [u64; WORDS] = [0; WORDS];
    assert(zero@ =~= zero_frame());
    let i: usize = ((pa - RAM_BASE) / PAGE_SIZE) as usize;
    m.ram.set(i, zero);
    m.fa.recycled.push(pa);
    let cg: usize = m.fa.owner[i] as usize;
    m.fa.owner.set(i, NO_OWNER);
    if cg < MAX_CG {
        proof {
            assert(old(m)@.fa.used[cg as int] == charged(old(m)@.fa.owner, cg as int, MAX_FRAMES as int));
        }
        m.fa.used[cg] = m.fa.used[cg] - 1;
    }
    assert(m@ =~= old(m)@.dealloc(pa));
}

/// Sets the cap of a group (0 = no cap). Ids past the last group are ignored.
pub fn set_cg_limit(m: &mut Mem, cg: usize, lim: u64)
    requires
        old(m)@.wf(),
    ensures
        final(m)@.wf(),
        final(m)@ == old(m)@.limited(cg, lim),
{
    if cg < MAX_CG {
        m.fa.lim[cg] = lim;
        let ghost f = FrameV { lim: old(m)@.fa.lim.update(cg as int, lim), ..old(m)@.fa };
        assert(m@.fa =~= f);
        assert(m@.ram =~= old(m)@.ram);
        assert forall|pa: u64| #[trigger] f.free(pa) implies f.owner[fi(pa)] == NO_OWNER by {
            assert(old(m)@.fa.free(pa));
        }
        assert forall|c: int| 0 <= c < MAX_CG implies #[trigger] f.used[c] == charged(
            f.owner,
            c,
            MAX_FRAMES as int,
        ) by {
            assert(old(m)@.fa.used[c] == charged(old(m)@.fa.owner, c, MAX_FRAMES as int));
        }
    }
}

/// Frames charged to a group.
pub fn cg_use(m: &Mem, cg: usize) -> (n: u64)
    ensures
        n == if cg < MAX_CG {
            m@.fa.used[cg as int]
        } else {
            0
        },
        m@.wf() && cg < MAX_CG ==> n == charged(m@.fa.owner, cg as int, MAX_FRAMES as int),
{
    if cg < MAX_CG {
        m.fa.used[cg]
    } else {
        0
    }
}

/// Cap of a group (0 = no cap).
pub fn cg_lim(m: &Mem, cg: usize) -> (n: u64)
    ensures
        n == if cg < MAX_CG {
            m@.fa.lim[cg as int]
        } else {
            0
        },
{
    if cg < MAX_CG {
        m.fa.lim[cg]
    } else {
        0
    }
}

/// The allocator's high-water address.
pub fn frames_used(m: &Mem) -> (a: u64)
    ensures
        a == m@.fa.cur,
{
    m.fa.cur
}

/// Frames left: given back, plus never handed out.
pub fn free_frames(m: &Mem) -> (n: u64)
    requires
        m@.wf(),
    ensures
        n == m@.fa.recycled.len() + (m@.fa.end - m@.fa.cur) / PAGE_SIZE as int,
{
    proof {
        lemma_distinct_frames(m@.fa.recycled);
    }
    m.fa.recycled.len() as u64 + (m.fa.end - m.fa.cur) / PAGE_SIZE
}

// ---- what stays ----

/// Frames in use are charged to whom they were, and caps are as they were.
pub open spec fn owners_kept(m: MemV, n: MemV) -> bool {
    &&& n.fa.lim == m.fa.lim
    &&& forall|t: u64| in_ram(t) && !m.free(t) ==> #[trigger] n.fa.owner[fi(t)] == m.fa.owner[fi(t)]
}

/// The allocator has the same frames as before, charged to the same groups.
pub open spec fn same_use(m: MemV, n: MemV) -> bool {
    &&& forall|t: u64| #[trigger] n.free(t) <==> m.free(t)
    &&& n.fa.owner == m.fa.owner
    &&& n.fa.used == m.fa.used
    &&& n.fa.lim == m.fa.lim
    &&& n.fa.free_count() == m.fa.free_count()
    &&& forall|cg: usize| #[trigger] n.fa.room(cg) == m.fa.room(cg)
}

pub proof fn lemma_owners_trans(m: MemV, n: MemV, k: MemV)
    requires
        owners_kept(m, n),
        owners_kept(n, k),
        forall|t: u64| #[trigger] n.free(t) ==> m.free(t),
    ensures
        owners_kept(m, k),
{
    assert forall|t: u64| in_ram(t) && !m.free(t) implies #[trigger] k.fa.owner[fi(t)] == m.fa.owner[fi(t)] by {
        assert(n.free(t) ==> m.free(t));
        assert(n.fa.owner[fi(t)] == m.fa.owner[fi(t)]);
    }
}

/// Handing out frames leaves the charge of those in use.
pub proof fn lemma_owners_grabs(m: MemV, n: MemV, cg: usize, k: nat)
    requires
        m.wf(),
        k <= m.fa.room(cg),
        n.fa == m.fa.grabs(cg, k),
    ensures
        owners_kept(m, n),
        forall|t: u64| #[trigger] n.free(t) ==> m.free(t),
    decreases k,
{
    if k > 0 {
        let g = lemma_grabs_room(m, cg, (k - 1) as nat);
        lemma_owners_grabs(m, g, cg, (k - 1) as nat);
        lemma_room(g, cg);
        law_alloc(g, cg);
        let pa = g.fa.next_frame();
        assert(m.free(pa));
        assert(n.fa == g.fa.grab(cg));
        assert forall|t: u64| in_ram(t) && !m.free(t) implies #[trigger] n.fa.owner[fi(t)] == m.fa.owner[fi(t)] by {
            assert(fi(t) != fi(pa));
            assert(g.fa.owner[fi(t)] == m.fa.owner[fi(t)]);
        }
        assert forall|t: u64| #[trigger] n.free(t) implies m.free(t) by {
            assert(g.grab(cg).free(t) == n.free(t));
            assert(g.free(t));
        }
    }
}

/// Untouched frames from `cur` on.
spec fn fresh_set(cur: int, end: int) -> Set<u64> {
    Set::new(|pa: u64| cur <= pa && pa + PAGE_SIZE <= end && pa % PAGE_SIZE == 0)
}

proof fn lemma_fresh_count(cur: int, end: int)
    requires
        0 <= cur <= end,
        cur % 4096 == 0,
        end % 4096 == 0,
        end <= u64::MAX,
    ensures
        fresh_set(cur, end).finite(),
        fresh_set(cur, end).len() == (end - cur) / 4096,
    decreases end - cur,
{
    if cur < end {
        lemma_fresh_count(cur + 4096, end);
        let a = fresh_set(cur, end);
        let b = fresh_set(cur + 4096, end);
        assert(a =~= b.insert(cur as u64)) by {
            assert forall|pa: u64| a.contains(pa) implies b.insert(cur as u64).contains(pa) by {}
        }
        assert(!b.contains(cur as u64));
    } else {
        assert(fresh_set(cur, end) =~= Set::empty());
    }
}

/// As many frames are left as there are free ones.
proof fn lemma_free_count(f: FrameV)
    requires
        f.wf(),
    ensures
        Set::new(|pa: u64| f.free(pa)).finite(),
        Set::new(|pa: u64| f.free(pa)).len() == f.free_count(),
{
    let a = f.recycled.to_set();
    let b = fresh_set(f.cur as int, f.end as int);
    lemma_fresh_count(f.cur as int, f.end as int);
    f.recycled.unique_seq_to_set();
    assert(a.disjoint(b)) by {
        assert forall|pa: u64| !(a.contains(pa) && b.contains(pa)) by {
            if a.contains(pa) {
                let i = choose|i: int| 0 <= i < f.recycled.len() && f.recycled[i] == pa;
                assert(f.recycled[i] < f.cur);
            }
        }
    }
    vstd::set_lib::lemma_set_disjoint_lens(a, b);
    assert(Set::new(|pa: u64| f.free(pa)) =~= a + b);
}

/// Where the same frames are free and the others' charge was kept, everything
/// about the allocator that can be asked for is as before.
pub proof fn lemma_same_use(m: MemV, n: MemV)
    requires
        m.wf(),
        n.wf(),
        forall|t: u64| #[trigger] n.free(t) <==> m.free(t),
        owners_kept(m, n),
    ensures
        same_use(m, n),
{
    assert forall|f: int| 0 <= f < MAX_FRAMES implies n.fa.owner[f] == m.fa.owner[f] by {
        let t = (RAM_BASE + f * PAGE_SIZE) as u64;
        assert(in_ram(t) && fi(t) == f);
        assert(n.free(t) <==> m.free(t));
        if m.free(t) {
            assert(m.fa.free(t) && n.fa.free(t));
        }
    }
    assert(n.fa.owner =~= m.fa.owner);
    assert forall|cg: int| 0 <= cg < MAX_CG implies n.fa.used[cg] == m.fa.used[cg] by {
        assert(n.fa.used[cg] == charged(n.fa.owner, cg, MAX_FRAMES as int));
        assert(m.fa.used[cg] == charged(m.fa.owner, cg, MAX_FRAMES as int));
    }
    assert(n.fa.used =~= m.fa.used);
    lemma_free_count(m.fa);
    lemma_free_count(n.fa);
    assert(Set::new(|pa: u64| n.fa.free(pa)) =~= Set::new(|pa: u64| m.fa.free(pa))) by {
        assert forall|pa: u64| n.fa.free(pa) == m.fa.free(pa) by {
            assert(n.free(pa) <==> m.free(pa));
        }
    }
}

} // verus!
