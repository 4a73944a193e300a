//! The disk's queue: how the device is set up, what a request looks like, and
//! when it is done.
use crate::fs::dev;
use crate::fs::dev::{DevV, SECTOR};
use crate::mem::frame;
use crate::mem::frame::Mem;
use vstd::prelude::*;

verus! {

pub const MAGIC: u32 = 0x7472_6976;

/// Kinds of device.
pub const DEV_NET: u32 = 1;

pub const DEV_BLK: u32 = 2;

/// Registers.
pub const R_MAGIC: u32 = 0x000;

pub const R_VER: u32 = 0x004;

pub const R_DEVID: u32 = 0x008;

pub const R_DEVFEAT: u32 = 0x010;

pub const R_DEVFEATSEL: u32 = 0x014;

pub const R_DRVFEAT: u32 = 0x020;

pub const R_DRVFEATSEL: u32 = 0x024;

pub const R_PAGESZ: u32 = 0x028;

pub const R_QSEL: u32 = 0x030;

pub const R_QMAX: u32 = 0x034;

pub const R_QNUM: u32 = 0x038;

pub const R_QALIGN: u32 = 0x03c;

pub const R_QPFN: u32 = 0x040;

pub const R_QNOTIFY: u32 = 0x050;

pub const R_INTSTAT: u32 = 0x060;

pub const R_INTACK: u32 = 0x064;

pub const R_STATUS: u32 = 0x070;

pub const R_CONFIG: u32 = 0x100;

/// Bits of the status register.
pub const ST_ACK: u32 = 1;

pub const ST_DRIVER: u32 = 2;

pub const ST_OK: u32 = 4;

pub const ST_FEAT_OK: u32 = 8;

pub const QDEPTH: u16 = 8;

/// Flags of a descriptor: another follows; the device writes.
pub const D_NEXT: u16 = 1;

pub const D_WRITE: u16 = 2;

pub const T_IN: u32 = 0;

pub const T_OUT: u32 = 1;

/// Ticks and looks after which a request is given up.
pub const PATIENCE: u64 = 500;

pub const MAX_LOOKS: u32 = 100_000_000;

/// Status a request starts with; the device replaces it.
pub const UNANSWERED: u8 = 0xff;

/// A value for a register.
#[derive(Clone, Copy, PartialEq, Eq, Structural, Debug)]
pub struct RegSet {
    pub reg: u32,
    pub val: u32,
}

/// The device is of this kind.
pub fn probe(magic: u32, ver: u32, devid: u32, kind: u32) -> (ok: bool)
    ensures
        ok == (magic == MAGIC && (ver == 1 || ver == 2) && devid == kind),
{
    magic == MAGIC && (ver == 1 || ver == 2) && devid == kind
}

/// What resets the device and declines all features; `FEAT_OK` is added to
/// the status after it.
pub fn reset_sets() -> (v: [RegSet; 5])
    ensures
        v@ == seq![
            RegSet { reg: R_STATUS, val: 0 },
            RegSet { reg: R_STATUS, val: ST_ACK | ST_DRIVER },
            RegSet { reg: R_DEVFEATSEL, val: 0 },
            RegSet { reg: R_DRVFEATSEL, val: 0 },
            RegSet { reg: R_DRVFEAT, val: 0 },
        ],
{
    let v = [
        RegSet { reg: R_STATUS, val: 0 },
        RegSet { reg: R_STATUS, val: ST_ACK | ST_DRIVER },
        RegSet { reg: R_DEVFEATSEL, val: 0 },
        RegSet { reg: R_DRVFEATSEL, val: 0 },
        RegSet { reg: R_DRVFEAT, val: 0 },
    ];
    assert(v@ =~= seq![
        RegSet { reg: R_STATUS, val: 0 },
        RegSet { reg: R_STATUS, val: ST_ACK | ST_DRIVER },
        RegSet { reg: R_DEVFEATSEL, val: 0 },
        RegSet { reg: R_DRVFEATSEL, val: 0 },
        RegSet { reg: R_DRVFEAT, val: 0 },
    ]);
    v
}

/// The queue of the disk.
#[derive(Clone, Copy, PartialEq, Eq, Structural, Debug)]
pub struct Virtio {
    pub ready: bool,
    /// Frame of descriptors and offered requests; frame of used ones.
    pub q_base: u64,
    pub q_used: u64,
    pub avail_idx: u16,
    pub last_used: u16,
    /// Sectors of the disk.
    pub ncap: u64,
    /// Completion interrupts taken.
    pub irqs: u64,
}

/// A queue that is not set up.
pub fn absent() -> (v: Virtio)
    ensures
        v == (Virtio {
            ready: false,
            q_base: 0,
            q_used: 0,
            avail_idx: 0,
            last_used: 0,
            ncap: 0,
            irqs: 0,
        }),
{
    Virtio { ready: false, q_base: 0, q_used: 0, avail_idx: 0, last_used: 0, ncap: 0, irqs: 0 }
}

/// What was read from the device on the way.
#[derive(Clone, Copy, PartialEq, Eq, Structural, Debug)]
pub struct Seen {
    pub magic: u32,
    pub ver: u32,
    pub devid: u32,
    /// Status once `FEAT_OK` was asked for.
    pub status: u32,
    /// Largest queue.
    pub qmax: u32,
    /// Number of sectors, low and high half.
    pub cap_lo: u32,
    pub cap_hi: u32,
}

/// How setting up went.
#[derive(Clone, Copy, PartialEq, Eq, Structural, Debug)]
pub enum Setup {
    NoDevice,
    Refused,
    NoQueue,
    NoMemory,
    /// The queue has this many entries.
    Ready { q: u32 },
}

pub open spec fn depth(qmax: u32) -> u32 {
    if qmax < QDEPTH {
        qmax
    } else {
        QDEPTH as u32
    }
}

/// Sets the queue up in two frames of the root group. Where a frame was had
/// and the other not, it stays taken.
pub fn init(v: &mut Virtio, m: &mut Mem, r: &Seen) -> (o: Setup)
    requires
        old(m)@.wf(),
    ensures
        final(m)@.wf(),
        o == if !(r.magic == MAGIC && (r.ver == 1 || r.ver == 2) && r.devid == DEV_BLK) {
            Setup::NoDevice
        } else if r.status & ST_FEAT_OK == 0 {
            Setup::Refused
        } else if r.qmax == 0 {
            Setup::NoQueue
        } else if !old(m)@.fa.can_alloc(0) || !old(m)@.grab(0).fa.can_alloc(0) {
            Setup::NoMemory
        } else {
            Setup::Ready { q: depth(r.qmax) }
        },
        o is Ready ==> {
            &&& final(m)@ == old(m)@.grab(0).grab(0)
            &&& *final(v) == (Virtio {
                ready: true,
                q_base: old(m)@.fa.next_frame(),
                q_used: old(m)@.grab(0).fa.next_frame(),
                avail_idx: 0,
                last_used: 0,
                ncap: (r.cap_lo + 0x1_0000_0000 * r.cap_hi) as u64,
                irqs: old(v).irqs,
            })
        },
        !(o is Ready) ==> *final(v) == *old(v),
        o is NoMemory ==> final(m)@ == if old(m)@.fa.can_alloc(0) {
            old(m)@.grab(0)
        } else {
            old(m)@
        },
        !(o is Ready || o is NoMemory) ==> final(m)@ == old(m)@,
{
    if !probe(r.magic, r.ver, r.devid, DEV_BLK) {
        return Setup::NoDevice;
    }
    if r.status & ST_FEAT_OK == 0 {
        return Setup::Refused;
    }
    if r.qmax == 0 {
        return Setup::NoQueue;
    }
    let f0 = match frame::alloc_frame_cg(m, 0) {
        Some(p) => p,
        None => {
            return Setup::NoMemory;
        },
    };
    let f1 = match frame::alloc_frame_cg(m, 0) {
        Some(p) => p,
        None => {
            return Setup::NoMemory;
        },
    };
    v.ready = true;
    v.q_base = f0;
    v.q_used = f1;
    v.avail_idx = 0;
    v.last_used = 0;
    v.ncap = r.cap_lo as u64 + 0x1_0000_0000 * (r.cap_hi as u64);
    Setup::Ready {
        q: if r.qmax < QDEPTH as u32 {
            r.qmax
        } else {
            QDEPTH as u32
        },
    }
}

/// What tells the device of a queue of `q` entries in a frame; `OK` is added
/// to the status after it.
pub fn queue_sets(q: u32, base: u64) -> (v: [RegSet; 4])
    ensures
        v@ == seq![
            RegSet { reg: R_QNUM, val: q },
            RegSet { reg: R_PAGESZ, val: 4096 },
            RegSet { reg: R_QALIGN, val: 4096 },
            RegSet { reg: R_QPFN, val: (base / 4096) as u32 },
        ],
{
    let v = [
        RegSet { reg: R_QNUM, val: q },
        RegSet { reg: R_PAGESZ, val: 4096 },
        RegSet { reg: R_QALIGN, val: 4096 },
        RegSet { reg: R_QPFN, val: (base / 4096) as u32 },
    ];
    assert(v@ =~= seq![
        RegSet { reg: R_QNUM, val: q },
        RegSet { reg: R_PAGESZ, val: 4096 },
        RegSet { reg: R_QALIGN, val: 4096 },
        RegSet { reg: R_QPFN, val: (base / 4096) as u32 },
    ]);
    v
}

// ---- requests ----

/// Where the parts of the queue lie.
pub fn desc_pa(v: &Virtio, i: u64) -> (pa: u64)
    requires
        v.q_base + 16 * i <= u64::MAX,
    ensures
        pa == v.q_base + 16 * i,
{
    v.q_base + 16 * i
}

pub fn avail_pa(v: &Virtio) -> (pa: u64)
    requires
        v.q_base + 16 * QDEPTH <= u64::MAX,
    ensures
        pa == v.q_base + 16 * QDEPTH,
{
    v.q_base + 128
}

#[derive(Clone, Copy, PartialEq, Eq, Structural, Debug)]
pub struct Desc {
    pub addr: u64,
    pub len: u32,
    pub flags: u16,
    pub next: u16,
}

/// A request: its header, and the chain of three buffers (header, data,
/// status) with the one that the device writes marked.
pub struct Request {
    pub header: [u8; 16],
    pub chain: [Desc; 3],
    /// Place in the ring of offered requests.
    pub slot: u16,
}

/// Header: the direction, a word of zeros, and the sector in eight bytes.
pub open spec fn header(write: bool, lba: u32) -> Seq<u8> {
    dev::le4(
        if write {
            T_OUT
        } else {
            T_IN
        },
    ) + dev::le4(0) + dev::le4(lba) + dev::le4(0)
}

pub open spec fn chain(write: bool, hdr: u64, data: u64, status: u64) -> Seq<Desc> {
    seq![
        Desc { addr: hdr, len: 16, flags: D_NEXT, next: 1 },
        Desc {
            addr: data,
            len: 512,
            flags: if write {
                D_NEXT
            } else {
                3
            },
            next: 2,
        },
        Desc { addr: status, len: 1, flags: D_WRITE, next: 0 },
    ]
}

/// Offers a request: the queue's count of offered requests goes up by one,
/// wrapping.
pub fn offer(v: &mut Virtio, write: bool, lba: u32, hdr: u64, data: u64, status: u64) -> (r: Request)
    ensures
        r.header@ == header(write, lba),
        r.chain@ == chain(write, hdr, data, status),
        r.slot == old(v).avail_idx % QDEPTH,
        *final(v) == (Virtio { avail_idx: old(v).avail_idx.wrapping_add(1), ..*old(v) }),
{
    let slot: u16 = v.avail_idx % QDEPTH;
    let mut h: [u8; 16] = [0; 16];
    h[0] = if write {
        1
    } else {
        0
    };
    h[8] = (lba % 256) as u8;
    h[9] = (lba / 256 % 256) as u8;
    h[10] = (lba / 65536 % 256) as u8;
    h[11] = (lba / 16777216) as u8;
    let c = [
        Desc { addr: hdr, len: 16, flags: D_NEXT, next: 1 },
        Desc {
            addr: data,
            len: 512,
            flags: if write {
                D_NEXT
            } else {
                3
            },
            next: 2,
        },
        Desc { addr: status, len: 1, flags: D_WRITE, next: 0 },
    ];
    assert(c@ =~= chain(write, hdr, data, status));
    assert(h@ =~= header(write, lba));
    v.avail_idx = v.avail_idx.wrapping_add(1);
    Request { header: h, chain: c, slot }
}

/// What to do while a request is out.
#[derive(Clone, Copy, PartialEq, Eq, Structural, Debug)]
pub enum Wait {
    /// The device used a request.
    Used,
    /// Give it up.
    TimedOut,
    /// Look again.
    Again,
}

/// One look at the count of used requests.
pub fn look(v: &Virtio, used_idx: u16, ticks: u64, deadline: u64, looks: u32) -> (r: Wait)
    ensures
        r == if used_idx != v.last_used {
            Wait::Used
        } else if ticks >= deadline || looks > MAX_LOOKS {
            Wait::TimedOut
        } else {
            Wait::Again
        },
{
    if used_idx != v.last_used {
        Wait::Used
    } else if ticks >= deadline || looks > MAX_LOOKS {
        Wait::TimedOut
    } else {
        Wait::Again
    }
}

/// Place of the next used request in its ring.
pub fn used_slot(v: &Virtio) -> (s: u16)
    ensures
        s == v.last_used % QDEPTH,
{
    v.last_used % QDEPTH
}

/// Takes a used request: it went well if it is the one that was offered and
/// its status is zero.
pub fn finish(v: &mut Virtio, id: u32, status: u8) -> (ok: bool)
    ensures
        ok == (id == 0 && status == 0),
        *final(v) == (Virtio { last_used: old(v).last_used.wrapping_add(1), ..*old(v) }),
{
    v.last_used = v.last_used.wrapping_add(1);
    id == 0 && status == 0
}

/// A completion interrupt. True: acknowledge the causes read. Sleepers are
/// woken either way. The count stays at its largest value.
pub fn on_irq(v: &mut Virtio, intstat: u32) -> (ack: bool)
    ensures
        ack == (intstat & 1 != 0),
        *final(v) == if ack && old(v).irqs < u64::MAX {
            Virtio { irqs: (old(v).irqs + 1) as u64, ..*old(v) }
        } else {
            *old(v)
        },
{
    if intstat & 1 == 0 {
        return false;
    }
    if v.irqs < u64::MAX {
        v.irqs = v.irqs + 1;
    }
    true
}

pub fn irq_count(v: &Virtio) -> (n: u64)
    ensures
        n == v.irqs,
{
    v.irqs
}

/// Between requests the two counts agree: each request that was offered is
/// taken once.
pub proof fn law_one_in_flight(offered: u16, used: u16)
    requires
        offered == used,
    ensures
        offered.wrapping_add(1) != used,
        offered.wrapping_add(1) == used.wrapping_add(1),
        offered % QDEPTH == used % QDEPTH,
{
}

// ---- self-test ----

#[derive(Clone, Copy, PartialEq, Eq, Structural, Debug)]
pub enum Test {
    Pass,
    ReadFail,
    WriteFail,
    VerifyFail,
    RestoreFail,
}

/// Byte `i` of the pattern.
pub open spec fn pattern_byte(i: int) -> u8 {
    (i as u32 ^ 0xa5) as u8
}

fn pattern() -> (p: [u8; SECTOR])
    ensures
        forall|i: int| 0 <= i < SECTOR ==> p@[i] == #[trigger] pattern_byte(i),
{
    let mut p: [u8; SECTOR] = [0; SECTOR];
    let mut i: usize = 0;
    while i < SECTOR
        invariant
            i <= SECTOR,
            forall|k: int| 0 <= k < i ==> p@[k] == #[trigger] pattern_byte(k),
        decreases SECTOR - i,
    {
        p[i] = (i as u32 ^ 0xa5) as u8;
        i += 1;
    }
    p
}

fn equal(a: &[u8; SECTOR], b: &[u8; SECTOR]) -> (r: bool)
    ensures
        r == (a@ == b@),
{
    let mut i: usize = 0;
    while i < SECTOR
        invariant
            i <= SECTOR,
            forall|k: int| 0 <= k < i ==> a@[k] == #[trigger] b@[k],
        decreases SECTOR - i,
    {
        if a[i] != b[i] {
            return false;
        }
        i += 1;
    }
    assert(a@ =~= b@);
    true
}

/// How far the test is.
#[derive(Clone, Copy, PartialEq, Eq, Structural, Debug)]
pub enum Phase {
    /// The sector is read.
    Save,
    /// The pattern is written.
    Mark,
    /// The pattern is read back.
    Check,
    /// What was there is written back.
    Restore,
    /// The test is over.
    Over { r: Test },
}

/// The test of a device on one of its sectors.
pub struct SelfTest {
    /// The sector.
    pub lba: u32,
    pub phase: Phase,
    /// What the sector held, once it is read.
    pub orig: [u8; SECTOR],
}

#[verifier::ext_equal]
pub struct SelfTestV {
    pub lba: u32,
    pub phase: Phase,
    pub orig: Seq<u8>,
}

impl View for SelfTest {
    type V = SelfTestV;

    open spec fn view(&self) -> SelfTestV {
        SelfTestV { lba: self.lba, phase: self.phase, orig: self.orig@ }
    }
}

/// What the device is to do next.
pub enum TestStep {
    Read { lba: u32 },
    Write { lba: u32, data: [u8; SECTOR] },
    Done { r: Test },
}

#[verifier::ext_equal]
pub enum TestStepV {
    Read { lba: u32 },
    Write { lba: u32, data: Seq<u8> },
    Done { r: Test },
}

impl View for TestStep {
    type V = TestStepV;

    open spec fn view(&self) -> TestStepV {
        match *self {
            TestStep::Read { lba } => TestStepV::Read { lba },
            TestStep::Write { lba, data } => TestStepV::Write { lba, data: data@ },
            TestStep::Done { r } => TestStepV::Done { r },
        }
    }
}

/// The pattern.
pub open spec fn pattern_sector() -> Seq<u8> {
    Seq::new(SECTOR as nat, |i: int| pattern_byte(i))
}

pub open spec fn over(t: SelfTestV, r: Test) -> (SelfTestV, TestStepV) {
    (SelfTestV { phase: Phase::Over { r }, ..t }, TestStepV::Done { r })
}

/// The test after the device answered: whether it did what it was asked, and
/// what it read.
pub open spec fn tested(t: SelfTestV, ok: bool, got: Seq<u8>) -> (SelfTestV, TestStepV) {
    match t.phase {
        Phase::Save => if !ok {
            over(t, Test::ReadFail)
        } else {
            (
                SelfTestV { phase: Phase::Mark, orig: got, ..t },
                TestStepV::Write { lba: t.lba, data: pattern_sector() },
            )
        },
        Phase::Mark => if !ok {
            over(t, Test::WriteFail)
        } else {
            (SelfTestV { phase: Phase::Check, ..t }, TestStepV::Read { lba: t.lba })
        },
        Phase::Check => if !ok || got != pattern_sector() {
            over(t, Test::VerifyFail)
        } else {
            (
                SelfTestV { phase: Phase::Restore, ..t },
                TestStepV::Write { lba: t.lba, data: t.orig },
            )
        },
        Phase::Restore => if !ok {
            over(t, Test::RestoreFail)
        } else {
            over(t, Test::Pass)
        },
        Phase::Over { r } => over(t, r),
    }
}

/// Capacity that a device has to exceed to be tested.
pub const TESTED_FROM: u64 = 16;

/// Begins the test of a device of `ncap` sectors: its last one is to be read.
/// None for a small device.
pub fn selftest(ncap: u64) -> (r: Option<(SelfTest, TestStep)>)
    ensures
        match r {
            None => ncap <= TESTED_FROM,
            Some((t, a)) => {
                &&& ncap > TESTED_FROM
                &&& t@ == (SelfTestV { lba: (ncap - 1) as u32, phase: Phase::Save, orig: dev::zeros() })
                &&& a@ == (TestStepV::Read { lba: t@.lba })
            },
        },
{
    if ncap <= TESTED_FROM {
        return None;
    }
    let lba: u32 = (ncap - 1) as u32;
    let t = SelfTest { lba, phase: Phase::Save, orig: [0; SECTOR] };
    assert(t@.orig =~= dev::zeros());
    Some((t, TestStep::Read { lba }))
}

/// Goes on with the test after the device answered: whether it did what it was
/// asked, and, for a read, what it read.
pub fn selftest_step(t: &mut SelfTest, ok: bool, got: &[u8; SECTOR]) -> (a: TestStep)
    ensures
        (final(t)@, a@) == tested(old(t)@, ok, got@),
{
    let r = match t.phase {
        Phase::Save => {
            if ok {
                t.orig = *got;
                t.phase = Phase::Mark;
                let data = pattern();
                assert(data@ =~= pattern_sector());
                return TestStep::Write { lba: t.lba, data };
            }
            Test::ReadFail
        },
        Phase::Mark => {
            if ok {
                t.phase = Phase::Check;
                return TestStep::Read { lba: t.lba };
            }
            Test::WriteFail
        },
        Phase::Check => {
            let pat = pattern();
            assert(pat@ =~= pattern_sector());
            if ok && equal(got, &pat) {
                t.phase = Phase::Restore;
                return TestStep::Write { lba: t.lba, data: t.orig };
            }
            Test::VerifyFail
        },
        Phase::Restore => if ok {
            Test::Pass
        } else {
            Test::RestoreFail
        },
        Phase::Over { r } => r,
    };
    t.phase = Phase::Over { r };
    TestStep::Done { r }
}

/// A device asked for the next thing: what it is after that, and its answer.
pub open spec fn answered(d: DevV, a: TestStepV) -> (DevV, bool, Seq<u8>) {
    match a {
        TestStepV::Read { lba } => (d, d.has(lba as int), d.at(lba as int)),
        TestStepV::Write { lba, data } => (d.put(lba, data), d.has(lba as int), dev::zeros()),
        TestStepV::Done { .. } => (d, true, dev::zeros()),
    }
}

/// Test and device after `n` steps.
pub open spec fn run(t: SelfTestV, a: TestStepV, d: DevV, n: nat) -> (SelfTestV, TestStepV, DevV)
    decreases n,
{
    if n == 0 {
        (t, a, d)
    } else {
        let (e, ok, got) = answered(d, a);
        let (u, b) = tested(t, ok, got);
        run(u, b, e, (n - 1) as nat)
    }
}

/// A device that keeps what is written passes. The pattern reached its sector
/// and then what was there before, and it holds the same as before. Without
/// the sector, the test ends with the first read and nothing is written.
pub proof fn law_selftest_of_a_device(t: SelfTestV, d: DevV)
    requires
        d.wf(),
        t.phase == Phase::Save,
    ensures
        ({
            let (u, b, e) = run(t, TestStepV::Read { lba: t.lba }, d, 4);
            if d.has(t.lba as int) {
                &&& b == (TestStepV::Done { r: Test::Pass })
                &&& e == d.put(t.lba, pattern_sector()).put(t.lba, d.secs[t.lba as int])
                &&& e.secs == d.secs
            } else {
                b == (TestStepV::Done { r: Test::ReadFail }) && e == d
            }
        }),
{
    reveal_with_fuel(run, 5);
    if d.has(t.lba as int) {
        assert(d.put(t.lba, pattern_sector()).put(t.lba, d.secs[t.lba as int]).secs =~= d.secs);
    }
}

/// The test ends within four answers, whatever they are. It passes just where
/// all four are good and the pattern is what was read back. Where it gets as
/// far as that, it writes the pattern and then what it read first.
pub proof fn law_selftest_ends(t: SelfTestV, a: Seq<(bool, Seq<u8>)>)
    requires
        t.phase == Phase::Save,
        a.len() == 4,
    ensures
        ({
            let (t1, s1) = tested(t, a[0].0, a[0].1);
            let (t2, s2) = tested(t1, a[1].0, a[1].1);
            let (t3, s3) = tested(t2, a[2].0, a[2].1);
            let (t4, s4) = tested(t3, a[3].0, a[3].1);
            &&& s4 is Done
            &&& s4->r is Pass <==> a[0].0 && a[1].0 && a[2].0 && a[3].0 && a[2].1 == pattern_sector()
            &&& s4->r is Pass || s4->r is RestoreFail ==> s1 == (TestStepV::Write {
                lba: t.lba,
                data: pattern_sector(),
            }) && s3 == (TestStepV::Write { lba: t.lba, data: a[0].1 })
        }),
{
}

} // verus!
