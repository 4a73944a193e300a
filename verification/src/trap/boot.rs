//! Starting the other harts, and the test that interrupts reach them.
use crate::hw::timer::FREQ;
use crate::task::state::MAX_HART;
use vstd::prelude::*;

verus! {

pub struct Smp {
    /// The hart that boots.
    pub me: usize,
    /// Harts that were started.
    pub started: [bool; MAX_HART],
    /// Started harts that no interrupt could be sent to yet.
    pub pending: [bool; MAX_HART],
}

#[verifier::ext_equal]
pub struct SmpV {
    pub me: usize,
    pub started: Seq<bool>,
    pub pending: Seq<bool>,
}

impl View for Smp {
    type V = SmpV;

    open spec fn view(&self) -> SmpV {
        SmpV { me: self.me, started: self.started@, pending: self.pending@ }
    }
}

pub open spec fn none() -> Seq<bool> {
    Seq::new(MAX_HART as nat, |h: int| false)
}

/// No hart but the one that boots runs.
pub fn begin(hartid: usize) -> (b: Smp)
    ensures
        b@ == (SmpV { me: hartid % MAX_HART, started: none(), pending: none() }),
{
    let b = Smp { me: hartid % MAX_HART, started: [false; MAX_HART], pending: [false; MAX_HART] };
    assert(b@ =~= (SmpV { me: hartid % MAX_HART, started: none(), pending: none() }));
    b
}

/// Whether a hart is to be started.
pub fn to_start(b: &Smp, h: usize) -> (r: bool)
    ensures
        r == (h < MAX_HART && h != b@.me),
{
    h < MAX_HART && h != b.me
}

/// What the firmware answered to the start of a hart; 0 means it starts.
pub fn on_start(b: &mut Smp, h: usize, rc: i64)
    requires
        h < MAX_HART,
    ensures
        final(b)@ == if rc == 0 {
            SmpV {
                started: old(b)@.started.update(h as int, true),
                pending: old(b)@.pending.update(h as int, true),
                ..old(b)@
            }
        } else {
            old(b)@
        },
{
    if rc == 0 {
        b.started[h] = true;
        b.pending[h] = true;
    }
}

/// Until when interrupts are sent, and until when answers are awaited.
pub fn send_deadline(now: u64) -> (d: u64)
    ensures
        d == now.wrapping_add((FREQ * 5) as u64),
{
    now.wrapping_add(50_000_000)
}

pub fn ack_deadline(now: u64) -> (d: u64)
    ensures
        d == now.wrapping_add((FREQ * 15) as u64),
{
    now.wrapping_add(150_000_000)
}

/// Some hart could not be sent an interrupt yet.
pub open spec fn waits(p: Seq<bool>) -> bool {
    exists|h: int| 0 <= h < MAX_HART && #[trigger] p[h]
}

/// Whether to go on sending interrupts.
pub fn sending(b: &Smp, now: u64, deadline: u64) -> (r: bool)
    ensures
        r == (waits(b@.pending) && now < deadline),
{
    let any = b.pending[0] || b.pending[1] || b.pending[2] || b.pending[3];
    proof {
        assert(b@.pending.len() == MAX_HART);
        if waits(b@.pending) {
            let h = choose|h: int| 0 <= h < MAX_HART && b@.pending[h];
            assert(b@.pending[h]);
        }
    }
    any && now < deadline
}

/// What the firmware answered to an interrupt for a hart; 0 means it is sent.
pub fn on_sent(b: &mut Smp, h: usize, rc: i64)
    requires
        h < MAX_HART,
    ensures
        final(b)@ == if rc == 0 {
            SmpV { pending: old(b)@.pending.update(h as int, false), ..old(b)@ }
        } else {
            old(b)@
        },
{
    if rc == 0 {
        b.pending[h] = false;
    }
}

/// Every started hart answered.
pub open spec fn all_acked(started: Seq<bool>, soft: Seq<bool>) -> bool {
    forall|h: int| 0 <= h < MAX_HART && #[trigger] started[h] ==> soft[h]
}

#[derive(Clone, Copy, PartialEq, Eq, Structural, Debug)]
pub enum Verdict {
    Pass,
    Fail,
    Again,
}

/// Whether the test is over, and how it went. An answer that arrives with the
/// deadline counts.
pub fn verdict(b: &Smp, soft: &[bool; MAX_HART], now: u64, deadline: u64) -> (v: Verdict)
    ensures
        v == if all_acked(b@.started, soft@) {
            Verdict::Pass
        } else if now >= deadline {
            Verdict::Fail
        } else {
            Verdict::Again
        },
{
    let mut h: usize = 0;
    let mut done = true;
    while h < MAX_HART
        invariant
            h <= MAX_HART,
            done == (forall|k: int| 0 <= k < h && #[trigger] b@.started[k] ==> soft@[k]),
        decreases MAX_HART - h,
    {
        if b.started[h] && !soft[h] {
            assert(b@.started[h as int] && !soft@[h as int]);
            done = false;
        }
        h += 1;
    }
    if done {
        Verdict::Pass
    } else if now >= deadline {
        Verdict::Fail
    } else {
        Verdict::Again
    }
}

/// A machine with one hart passes at once.
pub proof fn law_single_hart_passes(soft: Seq<bool>)
    ensures
        all_acked(none(), soft),
        !waits(none()),
{
}

} // verus!
