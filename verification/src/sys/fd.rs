//! The descriptor table of the process that makes a call.
use crate::task::state;
use crate::task::state::{Fd, ProcV, Sched, SchedV, MAX_HART, NFD};
use vstd::prelude::*;

verus! {

/// Kinds of descriptor.
pub const FD_FREE: u8 = 0;

pub const FD_STDIN: u8 = 1;

pub const FD_OUT: u8 = 2;

pub const FD_FILE: u8 = 4;

pub const FD_PIPE_R: u8 = 5;

pub const FD_PIPE_W: u8 = 6;

/// Number of a descriptor that is free.
pub const NO_FD: i32 = -1;

/// First descriptor that files and pipes get.
pub const FIRST: usize = 3;

/// The hart runs a process.
pub open spec fn busy(s: SchedV, h: int) -> bool {
    s.running_on(h) is Some
}

/// Descriptors of the hart's process.
pub open spec fn table(s: SchedV, h: int) -> Seq<Fd> {
    (s.running_on(h)->0).fds
}

pub open spec fn with_table(s: SchedV, h: int, t: Seq<Fd>) -> SchedV {
    s.with_proc(s.current[h] as int, ProcV { fds: t, ..s.running_on(h)->0 })
}

/// The number names a descriptor.
pub open spec fn named(fd: i32) -> bool {
    0 <= fd < NFD
}

/// A descriptor; its kind is free where the number names none.
pub open spec fn fd_at(s: SchedV, h: int, fd: i32) -> Option<Fd> {
    if named(fd) {
        Some(table(s, h)[fd as int])
    } else {
        None
    }
}

/// The first free descriptor from `i` on.
pub open spec fn first_free(t: Seq<Fd>, i: int) -> Option<int>
    decreases NFD - i,
{
    if i >= NFD {
        None
    } else if t[i].kind == FD_FREE {
        Some(i)
    } else {
        first_free(t, i + 1)
    }
}

pub fn get(s: &Sched, h: usize, fd: i32) -> (r: Option<Fd>)
    requires
        h < MAX_HART,
        busy(s@, h as int),
    ensures
        r == fd_at(s@, h as int, fd),
        r is Some ==> table(s@, h as int).len() == NFD,
{
    if fd < 0 || fd >= NFD as i32 {
        return None;
    }
    let pid: usize = s.current[h];
    assert(s@.procs[pid as int] == state::opt_proc(s.procs@[pid as int]));
    match &s.procs[pid] {
        Some(p) => Some(p.fds[fd as usize]),
        None => None,
    }
}

pub fn set(s: &mut Sched, h: usize, i: usize, f: Fd)
    requires
        h < MAX_HART,
        busy(old(s)@, h as int),
        i < NFD,
    ensures
        final(s)@ == with_table(old(s)@, h as int, table(old(s)@, h as int).update(i as int, f)),
        busy(final(s)@, h as int),
        table(final(s)@, h as int) == table(old(s)@, h as int).update(i as int, f),
{
    let pid: usize = s.current[h];
    assert(s@.procs[pid as int] == state::opt_proc(s.procs@[pid as int]));
    if let Some(p) = &mut s.procs[pid] {
        p.fds[i] = f;
    }
    proof {
        let t = with_table(old(s)@, h as int, table(old(s)@, h as int).update(i as int, f));
        assert(s@.procs[pid as int] == state::opt_proc(s.procs@[pid as int]));
        assert(s@.procs =~= t.procs);
        assert(s@ =~= t);
    }
}

pub fn find_free(s: &Sched, h: usize, from: usize) -> (r: Option<usize>)
    requires
        h < MAX_HART,
        busy(s@, h as int),
        from <= NFD,
    ensures
        match r {
            Some(i) => from <= i < NFD && first_free(table(s@, h as int), from as int) == Some(i as int),
            None => first_free(table(s@, h as int), from as int) is None,
        },
{
    let pid: usize = s.current[h];
    assert(s@.procs[pid as int] == state::opt_proc(s.procs@[pid as int]));
    let mut i: usize = from;
    if let Some(p) = &s.procs[pid] {
        while i < NFD
            invariant
                from <= i <= NFD,
                p@.fds == table(s@, h as int),
                first_free(table(s@, h as int), from as int) == first_free(
                    table(s@, h as int),
                    i as int,
                ),
            decreases NFD - i,
        {
            if p.fds[i].kind == FD_FREE {
                return Some(i);
            }
            i += 1;
        }
    }
    None
}

/// Only the last of two tables counts.
pub proof fn lemma_table_twice(s: SchedV, h: int, t: Seq<Fd>, u: Seq<Fd>)
    requires
        busy(s, h),
    ensures
        with_table(with_table(s, h, t), h, u) == with_table(s, h, u),
{
    let a = with_table(s, h, t);
    assert(a.running_on(h)->0 == (ProcV { fds: t, ..s.running_on(h)->0 }));
    assert(with_table(a, h, u).procs =~= with_table(s, h, u).procs);
}

// ---- close and duplicate ----

pub open spec fn closed(s: SchedV, h: int, fd: i32) -> (SchedV, int) {
    if named(fd) {
        let t = table(s, h);
        (
            with_table(s, h, t.update(fd as int, Fd { kind: FD_FREE, id: NO_FD, ..t[fd as int] })),
            0,
        )
    } else {
        (s, -1)
    }
}

/// Frees a descriptor.
pub fn sys_close(s: &mut Sched, h: usize, fd: i32) -> (r: i64)
    requires
        h < MAX_HART,
        busy(old(s)@, h as int),
    ensures
        (final(s)@, r as int) == closed(old(s)@, h as int, fd),
{
    match get(s, h, fd) {
        Some(f) => {
            set(s, h, fd as usize, Fd { kind: FD_FREE, id: NO_FD, ..f });
            0
        },
        None => -1,
    }
}

pub open spec fn doubled(s: SchedV, h: int, fd: i32) -> (SchedV, int) {
    let t = table(s, h);
    if named(fd) && t[fd as int].kind != FD_FREE {
        match first_free(t, 0) {
            Some(i) => (
                with_table(
                    s,
                    h,
                    t.update(
                        i,
                        Fd {
                            kind: t[fd as int].kind,
                            off: t[fd as int].off,
                            path: t[fd as int].path,
                            id: i as i32,
                            ..t[i]
                        },
                    ),
                ),
                i,
            ),
            None => (s, -1),
        }
    } else {
        (s, -1)
    }
}

/// Copies a descriptor to the first free one. -1 where there is none, or
/// nothing to copy.
pub fn sys_dup(s: &mut Sched, h: usize, fd: i32) -> (r: i64)
    requires
        h < MAX_HART,
        busy(old(s)@, h as int),
    ensures
        (final(s)@, r as int) == doubled(old(s)@, h as int, fd),
{
    let f = match get(s, h, fd) {
        Some(f) => f,
        None => {
            return -1;
        },
    };
    if f.kind == FD_FREE {
        return -1;
    }
    match find_free(s, h, 0) {
        Some(i) => {
            match get(s, h, i as i32) {
                Some(e) => {
                    set(s, h, i, Fd { kind: f.kind, off: f.off, path: f.path, id: i as i32, ..e });
                    i as i64
                },
                None => -1,
            }
        },
        None => -1,
    }
}

/// A descriptor that was closed is free, and the others are as they were.
pub proof fn law_close_frees(s: SchedV, h: int, fd: i32, other: int)
    requires
        0 <= h < s.current.len(),
        busy(s, h),
        table(s, h).len() == NFD,
        named(fd),
        0 <= other < NFD,
    ensures
        ({
            let t = table(closed(s, h, fd).0, h);
            t[fd as int].kind == FD_FREE && (other != fd ==> t[other] == table(s, h)[other])
        }),
{
    let t = table(s, h);
    let u = t.update(fd as int, Fd { kind: FD_FREE, id: NO_FD, ..t[fd as int] });
    assert(with_table(s, h, u).running_on(h)->0 == (ProcV { fds: u, ..s.running_on(h)->0 }));
}

/// A free descriptor that is found is one of the table.
pub proof fn lemma_first_free(t: Seq<Fd>, i: int)
    ensures
        first_free(t, i) matches Some(j) ==> i <= j < NFD && t[j].kind == FD_FREE,
    decreases NFD - i,
{
    if i < NFD && t[i].kind != FD_FREE {
        lemma_first_free(t, i + 1);
    }
}

} // verus!
