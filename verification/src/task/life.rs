//! Blocking, waking, killing, exiting and reaping.
use crate::task::sched;
use crate::task::sched::Next;
use crate::task::state;
use crate::task::state::{
    ProcV, Sched, SchedV, State, BLOCK_NET, BLOCK_SLEEP, BLOCK_STDIN, BLOCK_VIRTIO, BLOCK_WAIT,
    MAX_HART,
};
use vstd::prelude::*;

verus! {

/// Exit code of a killed process.
pub const KILLED: i32 = -9;

// ---- flags and lookups ----

/// The hart gives its process up at the end of the trap.
pub fn set_yield_flag(s: &mut Sched, h: usize)
    requires
        h < MAX_HART,
    ensures
        final(s)@ == (SchedV { yield_flag: old(s)@.yield_flag.update(h as int, true), ..old(s)@ }),
{
    s.yield_flag[h] = true;
    assert(s@ =~= (SchedV { yield_flag: old(s)@.yield_flag.update(h as int, true), ..old(s)@ }));
}

/// Reads the flag and clears it.
pub fn take_yield_flag(s: &mut Sched, h: usize) -> (v: bool)
    requires
        h < MAX_HART,
    ensures
        v == old(s)@.yield_flag[h as int],
        final(s)@ == (SchedV { yield_flag: old(s)@.yield_flag.update(h as int, false), ..old(s)@ }),
{
    let v = s.yield_flag[h];
    s.yield_flag[h] = false;
    assert(s@ =~= (SchedV { yield_flag: old(s)@.yield_flag.update(h as int, false), ..old(s)@ }));
    v
}

/// Asks for a switch at the end of the trap.
pub fn yield_now(s: &mut Sched, h: usize)
    requires
        h < MAX_HART,
    ensures
        final(s)@ == (SchedV { yield_flag: old(s)@.yield_flag.update(h as int, true), ..old(s)@ }),
{
    set_yield_flag(s, h)
}

pub fn current_pid(s: &Sched, h: usize) -> (pid: usize)
    requires
        h < MAX_HART,
    ensures
        pid == s@.current[h as int],
{
    s.current[h]
}

impl SchedV {
    /// The process hart `h` runs.
    pub open spec fn running_on(self, h: int) -> Option<ProcV> {
        self.proc(self.current[h] as int)
    }
}

/// Id of the hart's process within its namespace.
pub fn current_lpid(s: &Sched, h: usize) -> (pid: usize)
    requires
        h < MAX_HART,
    ensures
        pid == match s@.running_on(h as int) {
            Some(p) => p.lpid,
            None => s@.current[h as int],
        },
{
    let cur = s.current[h];
    if cur < s.procs.len() {
        assert(s@.procs[cur as int] == state::opt_proc(s.procs@[cur as int]));
        if let Some(p) = &s.procs[cur] {
            return p.lpid;
        }
    }
    cur
}

/// Group the hart's process is charged to; the root group before scheduling
/// starts and without a process.
pub fn current_cg(s: &Sched, h: usize) -> (cg: usize)
    requires
        h < MAX_HART,
    ensures
        cg == if !s@.active {
            0
        } else {
            match s@.running_on(h as int) {
                Some(p) => p.cg,
                None => 0,
            }
        },
{
    if !s.active {
        return 0;
    }
    let cur = s.current[h];
    if cur < s.procs.len() {
        assert(s@.procs[cur as int] == state::opt_proc(s.procs@[cur as int]));
        if let Some(p) = &s.procs[cur] {
            return p.cg;
        }
    }
    0
}

pub fn scheduler_active(s: &Sched) -> (r: bool)
    ensures
        r == s@.active,
{
    s.active
}

pub fn is_killed(s: &Sched, pid: usize) -> (r: bool)
    ensures
        r == (s@.proc(pid as int) matches Some(p) && p.killed),
{
    if pid < s.procs.len() {
        assert(s@.procs[pid as int] == state::opt_proc(s.procs@[pid as int]));
        if let Some(p) = &s.procs[pid] {
            return p.killed;
        }
    }
    false
}

/// The process is really executing, not a stale claim of its hart.
pub fn is_running(s: &Sched, pid: usize) -> (r: bool)
    ensures
        r == (s@.proc(pid as int) matches Some(p) && p.state is Running),
{
    if pid < s.procs.len() {
        assert(s@.procs[pid as int] == state::opt_proc(s.procs@[pid as int]));
        if let Some(p) = &s.procs[pid] {
            return p.state == State::Running;
        }
    }
    false
}

pub fn kill_code(s: &Sched, pid: usize) -> (c: i32)
    ensures
        c == match s@.proc(pid as int) {
            Some(p) => p.kill_code,
            None => KILLED,
        },
{
    if pid < s.procs.len() {
        assert(s@.procs[pid as int] == state::opt_proc(s.procs@[pid as int]));
        if let Some(p) = &s.procs[pid] {
            return p.kill_code;
        }
    }
    KILLED
}

pub fn set_traced(s: &mut Sched, pid: usize, on: bool) -> (ok: bool)
    ensures
        ok == (old(s)@.proc(pid as int) is Some),
        final(s)@ == match old(s)@.proc(pid as int) {
            Some(p) => old(s)@.with_proc(pid as int, ProcV { traced: on, ..p }),
            None => old(s)@,
        },
{
    if pid < s.procs.len() {
        assert(s@.procs[pid as int] == state::opt_proc(s.procs@[pid as int]));
        if let Some(p) = &mut s.procs[pid] {
            p.traced = on;
            assert(s@ =~= old(s)@.with_proc(
                pid as int,
                ProcV { traced: on, ..old(s)@.proc(pid as int)->0 },
            ));
            return true;
        }
    }
    assert(s@ =~= old(s)@);
    false
}

pub fn is_traced(s: &Sched, pid: usize) -> (r: bool)
    ensures
        r == (s@.proc(pid as int) matches Some(p) && p.traced),
{
    if pid < s.procs.len() {
        assert(s@.procs[pid as int] == state::opt_proc(s.procs@[pid as int]));
        if let Some(p) = &s.procs[pid] {
            return p.traced;
        }
    }
    false
}

/// Liveness and identity of a process: `start + 2` for a live one, the
/// negative of that for a zombie, -1 for none. The start is capped so that
/// the result fits.
pub fn pidinfo(s: &Sched, pid: usize) -> (r: i64)
    ensures
        r == match s@.proc(pid as int) {
            Some(p) => {
                let v: int = if p.start_ms <= i64::MAX - 2 {
                    p.start_ms + 2
                } else {
                    i64::MAX as int
                };
                if p.state is Zombie {
                    -v
                } else {
                    v
                }
            },
            None => -1,
        },
{
    if pid < s.procs.len() {
        assert(s@.procs[pid as int] == state::opt_proc(s.procs@[pid as int]));
        if let Some(p) = &s.procs[pid] {
            let top: u64 = 0x7fff_ffff_ffff_fffd;
            let v: i64 = if p.start_ms < top {
                p.start_ms as i64 + 2
            } else {
                top as i64 + 2
            };
            if p.state == State::Zombie {
                return -v;
            } else {
                return v;
            }
        }
    }
    -1
}

impl SchedV {
    /// Newest record of `pid` among the first `n` exit codes kept.
    pub open spec fn reap_record(self, pid: usize, n: int) -> Option<i32>
        decreases n,
    {
        if n <= 0 {
            None
        } else if self.reaped[n - 1].0 == pid {
            Some(self.reaped[n - 1].1)
        } else {
            self.reap_record(pid, n - 1)
        }
    }
}

/// Exit code of a reaped process, as `code + 0x10000`; -1 without a record.
pub fn reapstat(s: &Sched, pid: usize) -> (r: i64)
    ensures
        r == match s@.reap_record(pid, s@.reaped.len() as int) {
            Some(code) => if pid != 0 {
                code + 0x1_0000
            } else {
                -1
            },
            None => -1,
        },
{
    let mut n: usize = s.reaped.len();
    while n > 0
        invariant
            n <= s@.reaped.len(),
            s@.reap_record(pid, n as int) == s@.reap_record(pid, s@.reaped.len() as int),
        decreases n,
    {
        n -= 1;
        let (p, code) = s.reaped[n];
        if p == pid {
            if pid != 0 {
                return code as i64 + 0x1_0000;
            }
            return -1;
        }
    }
    -1
}

// ---- blocking and waking ----

/// Blocks the hart's process, if it runs.
pub fn block_current(s: &mut Sched, h: usize, reason: u8, wake_at: u64)
    requires
        h < MAX_HART,
    ensures
        final(s)@ == match old(s)@.running_on(h as int) {
            Some(p) => if p.state is Running {
                old(s)@.with_proc(
                    old(s)@.current[h as int] as int,
                    ProcV { state: State::Blocked, blocked_on: reason, wake_at, ..p },
                )
            } else {
                old(s)@
            },
            None => old(s)@,
        },
{
    let cur = s.current[h];
    if cur < s.procs.len() {
        assert(s@.procs[cur as int] == state::opt_proc(s.procs@[cur as int]));
        if let Some(p) = &mut s.procs[cur] {
            if p.state == State::Running {
                p.state = State::Blocked;
                p.blocked_on = reason;
                p.wake_at = wake_at;
                let ghost q = old(s)@.running_on(h as int)->0;
                assert(s@ =~= old(s)@.with_proc(
                    cur as int,
                    ProcV { state: State::Blocked, blocked_on: reason, wake_at, ..q },
                ));
                return;
            }
        }
    }
    assert(s@ =~= old(s)@);
}

impl SchedV {
    /// A blocked process made runnable and queued on hart `hq`.
    pub open spec fn wake(self, pid: int, hq: int) -> SchedV {
        match self.proc(pid) {
            Some(p) => if p.state is Blocked {
                self.with_proc(pid, ProcV { state: State::Runnable, blocked_on: 0, ..p }).enqueue(
                    pid as usize,
                    hq,
                )
            } else {
                self
            },
            None => self,
        }
    }

    /// The process sleeps for this reason, and, if it sleeps until a tick, the
    /// tick has come.
    pub open spec fn sleeps(self, pid: int, reason: u8, now: u64) -> bool {
        match self.proc(pid) {
            Some(p) => p.state is Blocked && p.blocked_on == reason && (reason == BLOCK_SLEEP ==> now
                >= p.wake_at),
            None => false,
        }
    }

    /// Everyone below `upto` that sleeps for the reason woken, in order of
    /// id; and whether anyone was queued.
    pub open spec fn wake_all(self, upto: int, reason: u8, hq: int, now: u64) -> (SchedV, bool)
        decreases upto,
    {
        if upto <= 0 {
            (self, false)
        } else {
            let (s, q) = self.wake_all(upto - 1, reason, hq, now);
            if self.sleeps(upto - 1, reason, now) {
                (s.wake(upto - 1, hq), q || !self.is_current((upto - 1) as usize))
            } else {
                (s, q)
            }
        }
    }
}

/// Wakes one process. True if it was queued.
fn wake_locked(s: &mut Sched, pid: usize, hq: usize) -> (queued: bool)
    requires
        hq < MAX_HART,
    ensures
        final(s)@ == old(s)@.wake(pid as int, hq as int),
        queued == ((old(s)@.proc(pid as int) matches Some(p) && p.state is Blocked) && !old(s)@.is_current(
            pid,
        )),
{
    if pid < s.procs.len() {
        assert(s@.procs[pid as int] == state::opt_proc(s.procs@[pid as int]));
        let ghost s0 = s@;
        if let Some(p) = &mut s.procs[pid] {
            if p.state == State::Blocked {
                p.state = State::Runnable;
                p.blocked_on = 0;
                let ghost q = s0.proc(pid as int)->0;
                assert(s@ =~= s0.with_proc(
                    pid as int,
                    ProcV { state: State::Runnable, blocked_on: 0, ..q },
                ));
                proof {
                    sched::lemma_current_same(s@, s0, pid);
                }
                return sched::enqueue_locked(s, pid, hq);
            }
        }
    }
    assert(s@ =~= old(s)@);
    false
}

proof fn lemma_wake_all_frame(s: SchedV, upto: int, reason: u8, hq: int, now: u64)
    requires
        s.queues.len() == MAX_HART,
        0 <= hq < MAX_HART,
        0 <= upto <= s.procs.len(),
    ensures
        ({
            let t = s.wake_all(upto, reason, hq, now).0;
            &&& t.current == s.current
            &&& t.procs.len() == s.procs.len()
            &&& t.queues.len() == MAX_HART
            &&& forall|i: int| upto <= i < s.procs.len() ==> #[trigger] t.procs[i] == s.procs[i]
        }),
    decreases upto,
{
    if upto > 0 {
        lemma_wake_all_frame(s, upto - 1, reason, hq, now);
    }
}

fn wake_reason(s: &mut Sched, h: usize, reason: u8, now: u64) -> (kick: bool)
    requires
        h < MAX_HART,
    ensures
        (final(s)@, kick) == old(s)@.wake_all(old(s)@.procs.len() as int, reason, h as int, now),
{
    let n = s.procs.len();
    let mut q = false;
    let mut i: usize = 0;
    while i < n
        invariant
            h < MAX_HART,
            i <= n,
            n == old(s)@.procs.len(),
            (s@, q) == old(s)@.wake_all(i as int, reason, h as int, now),
        decreases n - i,
    {
        proof {
            lemma_wake_all_frame(old(s)@, i as int, reason, h as int, now);
            assert(s@.procs[i as int] == state::opt_proc(s.procs@[i as int]));
            assert(s@.procs[i as int] == old(s)@.procs[i as int]);
            sched::lemma_current_same(s@, old(s)@, i);
        }
        let hit = match &s.procs[i] {
            Some(p) => p.state == State::Blocked && p.blocked_on == reason && (reason != BLOCK_SLEEP
                || now >= p.wake_at),
            None => false,
        };
        if hit {
            let k = wake_locked(s, i, h);
            q = q || k;
        }
        i += 1;
    }
    q
}

/// Wakes those waiting for console input. True: kick idle harts.
pub fn wake_stdin(s: &mut Sched, h: usize) -> (kick: bool)
    requires
        h < MAX_HART,
    ensures
        (final(s)@, kick) == old(s)@.wake_all(old(s)@.procs.len() as int, BLOCK_STDIN, h as int, 0),
{
    wake_reason(s, h, BLOCK_STDIN, 0)
}

/// Wakes those waiting for the disk. True: kick idle harts.
pub fn wake_virtio(s: &mut Sched, h: usize) -> (kick: bool)
    requires
        h < MAX_HART,
    ensures
        (final(s)@, kick) == old(s)@.wake_all(old(s)@.procs.len() as int, BLOCK_VIRTIO, h as int, 0),
{
    wake_reason(s, h, BLOCK_VIRTIO, 0)
}

/// Wakes those waiting for the network. True: kick idle harts.
pub fn wake_net(s: &mut Sched, h: usize) -> (kick: bool)
    requires
        h < MAX_HART,
    ensures
        (final(s)@, kick) == old(s)@.wake_all(old(s)@.procs.len() as int, BLOCK_NET, h as int, 0),
{
    wake_reason(s, h, BLOCK_NET, 0)
}

/// Wakes sleepers whose time has come. True: kick idle harts.
pub fn wake_sleepers(s: &mut Sched, h: usize, now: u64) -> (kick: bool)
    requires
        h < MAX_HART,
    ensures
        (final(s)@, kick) == old(s)@.wake_all(old(s)@.procs.len() as int, BLOCK_SLEEP, h as int, now),
{
    wake_reason(s, h, BLOCK_SLEEP, now)
}

/// Harts among the first `n` that sleep with work in their queue.
pub open spec fn kick_list(s: SchedV, n: int) -> Seq<usize>
    decreases n,
{
    if n <= 0 {
        Seq::empty()
    } else if s.idle[n - 1] && s.queues[n - 1].len() > 0 {
        kick_list(s, n - 1).push((n - 1) as usize)
    } else {
        kick_list(s, n - 1)
    }
}

/// Harts to interrupt: those that sleep with work in their queue.
pub fn kick_idle(s: &Sched) -> (v: Vec<usize>)
    ensures
        v@ == kick_list(s@, MAX_HART as int),
{
    let mut v: Vec<usize> = Vec::new();
    let mut h: usize = 0;
    while h < MAX_HART
        invariant
            h <= MAX_HART,
            v@ == kick_list(s@, h as int),
        decreases MAX_HART - h,
    {
        assert(s@.queues[h as int] == s.queues@[h as int]@);
        if s.idle[h] && s.queues[h].len() > 0 {
            v.push(h);
        }
        h += 1;
    }
    v
}

// ---- killing ----

impl SchedV {
    /// Marks a process killed with `code`, waking it if it is blocked.
    pub open spec fn kill_with(self, pid: int, code: i32, hq: int) -> (SchedV, bool) {
        match self.proc(pid) {
            Some(p) => if p.state is Zombie {
                (self, false)
            } else {
                (
                    self.with_proc(pid, ProcV { killed: true, kill_code: code, ..p }).wake(pid, hq),
                    true,
                )
            },
            None => (self, false),
        }
    }

    /// First process from `from` on with this id in the namespace.
    pub open spec fn by_lpid(self, ns: usize, lpid: usize, from: int) -> Option<int>
        decreases self.procs.len() - from,
    {
        if from >= self.procs.len() {
            None
        } else {
            match self.procs[from] {
                Some(p) => if p.ns == ns && p.lpid == lpid {
                    Some(from)
                } else {
                    self.by_lpid(ns, lpid, from + 1)
                },
                None => self.by_lpid(ns, lpid, from + 1),
            }
        }
    }

    /// Namespace of the hart's process.
    pub open spec fn ns_on(self, h: int) -> usize {
        match self.running_on(h) {
            Some(p) => p.ns,
            None => 0,
        }
    }

    /// The process a caller on hart `h` names: in its own namespace first,
    /// else by global id.
    pub open spec fn target(self, h: int, pid: usize) -> usize {
        match self.by_lpid(self.ns_on(h), pid, 0) {
            Some(i) => i as usize,
            None => pid,
        }
    }
}

fn kill_with(s: &mut Sched, pid: usize, code: i32, h: usize) -> (ok: bool)
    requires
        h < MAX_HART,
    ensures
        (final(s)@, ok) == old(s)@.kill_with(pid as int, code, h as int),
{
    if pid < s.procs.len() {
        assert(s@.procs[pid as int] == state::opt_proc(s.procs@[pid as int]));
        let ghost s0 = s@;
        if let Some(p) = &mut s.procs[pid] {
            if p.state == State::Zombie {
                assert(s@ =~= s0);
                return false;
            }
            p.killed = true;
            p.kill_code = code;
            let ghost q = s0.proc(pid as int)->0;
            assert(s@ =~= s0.with_proc(pid as int, ProcV { killed: true, kill_code: code, ..q }));
            wake_locked(s, pid, h);
            return true;
        }
    }
    assert(s@ =~= old(s)@);
    false
}

fn ns_on(s: &Sched, h: usize) -> (ns: usize)
    requires
        h < MAX_HART,
    ensures
        ns == s@.ns_on(h as int),
{
    let cur = s.current[h];
    if cur < s.procs.len() {
        assert(s@.procs[cur as int] == state::opt_proc(s.procs@[cur as int]));
        if let Some(p) = &s.procs[cur] {
            return p.ns;
        }
    }
    0
}

pub fn resolve_kill_target(s: &Sched, h: usize, pid: usize) -> (t: usize)
    requires
        h < MAX_HART,
    ensures
        t == s@.target(h as int, pid),
{
    let ns = ns_on(s, h);
    let mut i: usize = 0;
    while i < s.procs.len()
        invariant
            i <= s@.procs.len(),
            ns == s@.ns_on(h as int),
            s@.by_lpid(ns, pid, i as int) == s@.by_lpid(ns, pid, 0),
        decreases s@.procs.len() - i,
    {
        assert(s@.procs[i as int] == state::opt_proc(s.procs@[i as int]));
        if let Some(p) = &s.procs[i] {
            if p.ns == ns && p.lpid == pid {
                return i;
            }
        }
        i += 1;
    }
    pid
}

/// Marks a process killed; it exits at its next trap. False if there is no
/// such live process.
pub fn kill(s: &mut Sched, h: usize, pid: usize) -> (ok: bool)
    requires
        h < MAX_HART,
    ensures
        (final(s)@, ok) == old(s)@.kill_with(old(s)@.target(h as int, pid) as int, KILLED, h as int),
{
    let t = resolve_kill_target(s, h, pid);
    kill_with(s, t, KILLED, h)
}

/// Makes a process, named in the caller's namespace, the foreground one.
pub fn set_fg_global(s: &mut Sched, h: usize, lpid: usize)
    requires
        h < MAX_HART,
    ensures
        final(s)@ == (SchedV { fg_pid: old(s)@.target(h as int, lpid), ..old(s)@ }),
{
    let t = resolve_kill_target(s, h, lpid);
    s.fg_pid = t;
    assert(s@ =~= (SchedV { fg_pid: t, ..old(s)@ }));
}

/// Interrupt key: kills the foreground process with code 130. False if there
/// is none.
pub fn kill_fg(s: &mut Sched, h: usize) -> (ok: bool)
    requires
        h < MAX_HART,
    ensures
        (final(s)@, ok) == if old(s)@.fg_pid == 0 {
            (old(s)@, false)
        } else {
            old(s)@.kill_with(old(s)@.fg_pid as int, 130, h as int)
        },
{
    let fg = s.fg_pid;
    if fg == 0 {
        return false;
    }
    kill_with(s, fg, 130, h)
}

impl SchedV {
    /// Live member of the group other than the caller.
    pub open spec fn kill_target(self, i: int, cg: usize, me: usize) -> bool {
        match self.proc(i) {
            Some(p) => p.cg == cg && !(p.state is Zombie) && i != me,
            None => false,
        }
    }

    /// The group's live members below `upto`, but for `me`, killed in order;
    /// and how many they are.
    pub open spec fn kill_group(self, upto: int, cg: usize, me: usize, hq: int) -> (SchedV, nat)
        decreases upto,
    {
        if upto <= 0 {
            (self, 0)
        } else {
            let (s, n) = self.kill_group(upto - 1, cg, me, hq);
            if self.kill_target(upto - 1, cg, me) {
                (s.kill_with(upto - 1, KILLED, hq).0, n + 1)
            } else {
                (s, n)
            }
        }
    }
}

proof fn lemma_kill_group_frame(s: SchedV, upto: int, cg: usize, me: usize, hq: int)
    requires
        s.queues.len() == MAX_HART,
        0 <= hq < MAX_HART,
        0 <= upto <= s.procs.len(),
    ensures
        ({
            let (t, n) = s.kill_group(upto, cg, me, hq);
            &&& t.current == s.current
            &&& t.procs.len() == s.procs.len()
            &&& t.queues.len() == MAX_HART
            &&& n <= upto
            &&& forall|i: int| upto <= i < s.procs.len() ==> #[trigger] t.procs[i] == s.procs[i]
        }),
    decreases upto,
{
    if upto > 0 {
        lemma_kill_group_frame(s, upto - 1, cg, me, hq);
    }
}

/// Kills every live process of a group but the caller's: how many were
/// marked. -1 for the root group and for ids that name none.
pub fn cg_kill(s: &mut Sched, h: usize, cg: usize) -> (r: i64)
    requires
        h < MAX_HART,
        old(s)@.procs.len() <= i64::MAX,
    ensures
        cg == 0 || cg >= state::MAX_CG || cg >= old(s)@.cg.len() ==> r == -1 && final(s)@ == old(s)@,
        !(cg == 0 || cg >= state::MAX_CG || cg >= old(s)@.cg.len()) ==> {
            let (t, n) = old(s)@.kill_group(
                old(s)@.procs.len() as int,
                cg,
                old(s)@.current[h as int],
                h as int,
            );
            final(s)@ == t && r == n
        },
{
    if cg == 0 || cg >= state::MAX_CG {
        return -1;
    }
    let me = s.current[h];
    if cg >= s.cg.len() {
        return -1;
    }
    let len = s.procs.len();
    let mut n: i64 = 0;
    let mut i: usize = 0;
    while i < len
        invariant
            h < MAX_HART,
            i <= len,
            len == old(s)@.procs.len(),
            len <= i64::MAX,
            0 <= n <= i,
            (s@, n as nat) == old(s)@.kill_group(i as int, cg, me, h as int),
        decreases len - i,
    {
        proof {
            lemma_kill_group_frame(old(s)@, i as int, cg, me, h as int);
            assert(s@.procs[i as int] == state::opt_proc(s.procs@[i as int]));
            assert(s@.procs[i as int] == old(s)@.procs[i as int]);
        }
        let hit = match &s.procs[i] {
            Some(p) => p.cg == cg && p.state != State::Zombie && i != me,
            None => false,
        };
        if hit {
            kill_with(s, i, KILLED, h);
            n += 1;
        }
        i += 1;
    }
    n
}

// ---- exiting ----

/// Each of the first `n` children that still exists gets process 1 as its
/// parent, and joins its children.
pub open spec fn reparent(s: SchedV, kids: Seq<usize>, n: int) -> SchedV
    decreases n,
{
    if n <= 0 {
        s
    } else {
        let t = reparent(s, kids, n - 1);
        let c = kids[n - 1];
        match t.proc(c as int) {
            Some(p) => {
                let u = t.with_proc(c as int, ProcV { parent: 1, ..p });
                match u.proc(1) {
                    Some(init) => if init.children.contains(c) {
                        u
                    } else {
                        u.with_proc(1, ProcV { children: init.children.push(c), ..init })
                    },
                    None => u,
                }
            },
            None => t,
        }
    }
}

impl SchedV {
    /// The process dead with its code.
    pub open spec fn died(self, pid: int, code: i32) -> SchedV {
        match self.proc(pid) {
            Some(p) => self.with_proc(pid, ProcV { state: State::Zombie, exit_code: code, ..p }),
            None => self,
        }
    }

    /// Its children handed to process 1.
    pub open spec fn orphaned(self, pid: int) -> SchedV {
        if pid == 1 {
            self
        } else {
            let kids = match self.proc(pid) {
                Some(p) => p.children,
                None => Seq::empty(),
            };
            let t = reparent(self, kids, kids.len() as int);
            match t.proc(pid) {
                Some(me) => t.with_proc(pid, ProcV { children: Seq::empty(), ..me }),
                None => t,
            }
        }
    }

    pub open spec fn parent_of(self, pid: int) -> usize {
        match self.proc(pid) {
            Some(p) => p.parent,
            None => 0,
        }
    }

    /// Its parent woken, if it sleeps waiting for a child.
    pub open spec fn parent_told(self, pid: int, hq: int) -> SchedV {
        let par = self.parent_of(pid) as int;
        match self.proc(par) {
            Some(pp) => if par != 0 && pp.state is Blocked && pp.blocked_on == BLOCK_WAIT {
                self.wake(par, hq)
            } else {
                self
            },
            None => self,
        }
    }

    /// Exit of a process on hart `h`.
    pub open spec fn exit(self, pid: usize, code: i32, h: int, now: u64) -> (SchedV, Next) {
        if self.proc(pid as int) matches Some(p) && p.state is Zombie {
            (self, Next::Idle)
        } else {
            let (s, next) = self.died(pid as int, code).orphaned(pid as int).parent_told(
                pid as int,
                h,
            ).find_next(h, pid, now);
            s.switch(h, next)
        }
    }
}

fn has_child(kids: &Vec<usize>, c: usize) -> (r: bool)
    ensures
        r == kids@.contains(c),
{
    let mut i: usize = 0;
    while i < kids.len()
        invariant
            i <= kids@.len(),
            forall|j: int| 0 <= j < i ==> kids@[j] != c,
        decreases kids@.len() - i,
    {
        if kids[i] == c {
            assert(kids@[i as int] == c);
            return true;
        }
        i += 1;
    }
    false
}

fn reparent_one(s: &mut Sched, c: usize)
    ensures
        final(s)@ == match old(s)@.proc(c as int) {
            Some(p) => {
                let u = old(s)@.with_proc(c as int, ProcV { parent: 1, ..p });
                match u.proc(1) {
                    Some(init) => if init.children.contains(c) {
                        u
                    } else {
                        u.with_proc(1, ProcV { children: init.children.push(c), ..init })
                    },
                    None => u,
                }
            },
            None => old(s)@,
        },
{
    let mut moved = false;
    if c < s.procs.len() {
        assert(s@.procs[c as int] == state::opt_proc(s.procs@[c as int]));
        if let Some(ch) = &mut s.procs[c] {
            ch.parent = 1;
            moved = true;
        }
    }
    if !moved {
        assert(s@ =~= old(s)@);
        return;
    }
    let ghost u = old(s)@.with_proc(c as int, ProcV { parent: 1, ..old(s)@.proc(c as int)->0 });
    assert(s@ =~= u);
    if 1 < s.procs.len() {
        assert(s@.procs[1] == state::opt_proc(s.procs@[1]));
        if let Some(init) = &mut s.procs[1] {
            if !has_child(&init.children, c) {
                init.children.push(c);
                let ghost i0 = u.proc(1)->0;
                assert(s@ =~= u.with_proc(1, ProcV { children: i0.children.push(c), ..i0 }));
            } else {
                assert(s@ =~= u);
            }
        } else {
            assert(s@ =~= u);
        }
    }
}

fn mark_dead(s: &mut Sched, pid: usize, code: i32)
    ensures
        final(s)@ == old(s)@.died(pid as int, code),
{
    if pid < s.procs.len() {
        assert(s@.procs[pid as int] == state::opt_proc(s.procs@[pid as int]));
        if let Some(p) = &mut s.procs[pid] {
            p.state = State::Zombie;
            p.exit_code = code;
        }
    }
    assert(s@ =~= old(s)@.died(pid as int, code));
}

fn orphan_children(s: &mut Sched, pid: usize)
    ensures
        final(s)@ == old(s)@.orphaned(pid as int),
{
    if pid == 1 {
        return;
    }
    let mut kids: Vec<usize> = Vec::new();
    if pid < s.procs.len() {
        assert(s@.procs[pid as int] == state::opt_proc(s.procs@[pid as int]));
        if let Some(p) = &mut s.procs[pid] {
            kids = clone_ids(&p.children);
        }
    }
    assert(s@ =~= old(s)@);
    let mut i: usize = 0;
    while i < kids.len()
        invariant
            i <= kids@.len(),
            s@ == reparent(old(s)@, kids@, i as int),
        decreases kids@.len() - i,
    {
        reparent_one(s, kids[i]);
        i += 1;
    }
    let ghost t = s@;
    if pid < s.procs.len() {
        assert(s@.procs[pid as int] == state::opt_proc(s.procs@[pid as int]));
        if let Some(me) = &mut s.procs[pid] {
            me.children = Vec::new();
        }
    }
    assert(s@ =~= match t.proc(pid as int) {
        Some(me) => t.with_proc(pid as int, ProcV { children: Seq::empty(), ..me }),
        None => t,
    });
}

/// A copy of a list of ids.
pub fn clone_ids(v: &Vec<usize>) -> (r: Vec<usize>)
    ensures
        r@ == v@,
{
    let mut r: Vec<usize> = Vec::new();
    let mut i: usize = 0;
    while i < v.len()
        invariant
            i <= v@.len(),
            r@ == v@.take(i as int),
        decreases v@.len() - i,
    {
        r.push(v[i]);
        i += 1;
        assert(r@ =~= v@.take(i as int));
    }
    assert(v@.take(i as int) =~= v@);
    r
}

fn tell_parent(s: &mut Sched, pid: usize, h: usize)
    requires
        h < MAX_HART,
    ensures
        final(s)@ == old(s)@.parent_told(pid as int, h as int),
{
    let mut par: usize = 0;
    if pid < s.procs.len() {
        assert(s@.procs[pid as int] == state::opt_proc(s.procs@[pid as int]));
        if let Some(p) = &s.procs[pid] {
            par = p.parent;
        }
    }
    if par != 0 && par < s.procs.len() {
        assert(s@.procs[par as int] == state::opt_proc(s.procs@[par as int]));
        let waits = match &s.procs[par] {
            Some(pp) => pp.state == State::Blocked && pp.blocked_on == BLOCK_WAIT,
            None => false,
        };
        if waits {
            wake_locked(s, par, h);
        }
    }
}

/// Ends a process: it becomes a zombie with its code, process 1 inherits its
/// children, a waiting parent is woken, and the hart takes other work. Ending
/// a zombie again changes nothing; the hart idles.
pub fn exit(s: &mut Sched, pid: usize, code: i32, h: usize, now: u64) -> (n: Next)
    requires
        h < MAX_HART,
    ensures
        (final(s)@, n) == old(s)@.exit(pid, code, h as int, now),
{
    if pid < s.procs.len() {
        assert(s@.procs[pid as int] == state::opt_proc(s.procs@[pid as int]));
        if let Some(p) = &s.procs[pid] {
            if p.state == State::Zombie {
                return Next::Idle;
            }
        }
    }
    mark_dead(s, pid, code);
    orphan_children(s, pid);
    tell_parent(s, pid, h);
    let next = sched::find_next(s, h, pid, now);
    sched::switch_to(s, h, next)
}

} // verus!
