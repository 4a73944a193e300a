//! Numbers of the calls, and what the registers of a call ask for.
use vstd::prelude::*;

verus! {

pub const SYS_FORK: u64 = 1;

pub const SYS_EXIT: u64 = 2;

pub const SYS_WAIT: u64 = 3;

pub const SYS_PIPE: u64 = 4;

pub const SYS_READ: u64 = 5;

pub const SYS_WRITE: u64 = 6;

pub const SYS_CLOSE: u64 = 7;

pub const SYS_KILL: u64 = 8;

pub const SYS_EXEC: u64 = 9;

pub const SYS_OPEN: u64 = 10;

pub const SYS_DUP: u64 = 11;

pub const SYS_GETPID: u64 = 12;

pub const SYS_SBRK: u64 = 13;

pub const SYS_SLEEP: u64 = 14;

pub const SYS_MKNOD: u64 = 15;

pub const SYS_CHDIR: u64 = 16;

pub const SYS_MKDIR: u64 = 17;

pub const SYS_LINK: u64 = 18;

pub const SYS_UNLINK: u64 = 19;

pub const SYS_FSTAT: u64 = 20;

pub const SYS_YIELD: u64 = 21;

pub const SYS_GETDENTS: u64 = 22;

pub const SYS_SHUTDOWN: u64 = 23;

/// A call. Descriptors, flags and codes are the low halves of their
/// registers; addresses are of user memory.
#[derive(Clone, Copy, PartialEq, Eq, Structural, Debug)]
pub enum Call {
    Fork,
    Exit { code: i32 },
    Wait { addr: u64 },
    Pipe { addr: u64 },
    Read { fd: i32, buf: u64, len: u64 },
    Write { fd: i32, buf: u64, len: u64 },
    Close { fd: i32 },
    Kill { pid: u64 },
    Exec { path: u64, argv: u64 },
    Open { path: u64, flags: i32 },
    Dup { fd: i32 },
    GetPid,
    Sbrk { inc: i32 },
    Sleep { ticks: u64 },
    /// Accepted, without effect.
    MkNod,
    ChDir,
    MkDir { path: u64 },
    Link { path: u64, to: u64 },
    Unlink { path: u64 },
    Fstat { fd: i32, out: u64 },
    Yield,
    GetDents { path: u64, buf: u64, len: u64 },
    Shutdown,
    /// Answered with -1.
    Unknown,
}

pub open spec fn decoded(id: u64, a0: u64, a1: u64, a2: u64) -> Call {
    if id == SYS_FORK {
        Call::Fork
    } else if id == SYS_EXIT {
        Call::Exit { code: a0 as i32 }
    } else if id == SYS_WAIT {
        Call::Wait { addr: a0 }
    } else if id == SYS_PIPE {
        Call::Pipe { addr: a0 }
    } else if id == SYS_READ {
        Call::Read { fd: a0 as i32, buf: a1, len: a2 }
    } else if id == SYS_WRITE {
        Call::Write { fd: a0 as i32, buf: a1, len: a2 }
    } else if id == SYS_CLOSE {
        Call::Close { fd: a0 as i32 }
    } else if id == SYS_KILL {
        Call::Kill { pid: a0 }
    } else if id == SYS_EXEC {
        Call::Exec { path: a0, argv: a1 }
    } else if id == SYS_OPEN {
        Call::Open { path: a0, flags: a1 as i32 }
    } else if id == SYS_DUP {
        Call::Dup { fd: a0 as i32 }
    } else if id == SYS_GETPID {
        Call::GetPid
    } else if id == SYS_SBRK {
        Call::Sbrk { inc: a0 as i32 }
    } else if id == SYS_SLEEP {
        Call::Sleep { ticks: a0 }
    } else if id == SYS_MKNOD {
        Call::MkNod
    } else if id == SYS_CHDIR {
        Call::ChDir
    } else if id == SYS_MKDIR {
        Call::MkDir { path: a0 }
    } else if id == SYS_LINK {
        Call::Link { path: a0, to: a1 }
    } else if id == SYS_UNLINK {
        Call::Unlink { path: a0 }
    } else if id == SYS_FSTAT {
        Call::Fstat { fd: a0 as i32, out: a1 }
    } else if id == SYS_YIELD {
        Call::Yield
    } else if id == SYS_GETDENTS {
        Call::GetDents { path: a0, buf: a1, len: a2 }
    } else if id == SYS_SHUTDOWN {
        Call::Shutdown
    } else {
        Call::Unknown
    }
}

/// What the registers of a call ask for.
pub fn decode(id: u64, a0: u64, a1: u64, a2: u64) -> (c: Call)
    ensures
        c == decoded(id, a0, a1, a2),
{
    match id {
        SYS_FORK => Call::Fork,
        SYS_EXIT => Call::Exit { code: a0 as i32 },
        SYS_WAIT => Call::Wait { addr: a0 },
        SYS_PIPE => Call::Pipe { addr: a0 },
        SYS_READ => Call::Read { fd: a0 as i32, buf: a1, len: a2 },
        SYS_WRITE => Call::Write { fd: a0 as i32, buf: a1, len: a2 },
        SYS_CLOSE => Call::Close { fd: a0 as i32 },
        SYS_KILL => Call::Kill { pid: a0 },
        SYS_EXEC => Call::Exec { path: a0, argv: a1 },
        SYS_OPEN => Call::Open { path: a0, flags: a1 as i32 },
        SYS_DUP => Call::Dup { fd: a0 as i32 },
        SYS_GETPID => Call::GetPid,
        SYS_SBRK => Call::Sbrk { inc: a0 as i32 },
        SYS_SLEEP => Call::Sleep { ticks: a0 },
        SYS_MKNOD => Call::MkNod,
        SYS_CHDIR => Call::ChDir,
        SYS_MKDIR => Call::MkDir { path: a0 },
        SYS_LINK => Call::Link { path: a0, to: a1 },
        SYS_UNLINK => Call::Unlink { path: a0 },
        SYS_FSTAT => Call::Fstat { fd: a0 as i32, out: a1 },
        SYS_YIELD => Call::Yield,
        SYS_GETDENTS => Call::GetDents { path: a0, buf: a1, len: a2 },
        SYS_SHUTDOWN => Call::Shutdown,
        _ => Call::Unknown,
    }
}

} // verus!
