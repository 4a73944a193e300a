//! System calls of a program, as the registers they are made with.
use vstd::prelude::*;

verus! {

/// Has the next child found a process-id namespace.
pub const CLONE_NEWPID: u64 = 0x2000_0000;

pub const O_CREATE: i32 = 0x40;

pub const O_TRUNC: i32 = 0x200;

pub const O_APPEND: i32 = 0x400;

pub const O_CLOEXEC: i32 = 0x8_0000;

/// A call: number and arguments. Signed arguments are extended.
#[derive(Clone, Copy, PartialEq, Eq, Structural, Debug)]
pub struct Ecall {
    pub id: u64,
    pub a0: u64,
    pub a1: u64,
    pub a2: u64,
}

fn ecall(id: u64, a0: u64, a1: u64, a2: u64) -> (c: Ecall)
    ensures
        c == (Ecall { id, a0, a1, a2 }),
{
    Ecall { id, a0, a1, a2 }
}

/// Makes a copy of the process: the child's number, 0 in the child.
pub fn fork() -> (c: Ecall)
    ensures
        c == (Ecall { id: 1, a0: 0, a1: 0, a2: 0 }),
{
    ecall(1, 0, 0, 0)
}

/// Ends the process.
pub fn exit(code: i32) -> (c: Ecall)
    ensures
        c == (Ecall { id: 2, a0: code as u64, a1: 0, a2: 0 }),
{
    ecall(2, code as u64, 0, 0)
}

/// Waits for a child; its code goes to an address, if that is not 0.
pub fn wait(code_out: u64) -> (c: Ecall)
    ensures
        c == (Ecall { id: 3, a0: code_out, a1: 0, a2: 0 }),
{
    ecall(3, code_out, 0, 0)
}

/// Makes a pipe; the two descriptors go to an address.
pub fn pipe(fds: u64) -> (c: Ecall)
    ensures
        c == (Ecall { id: 4, a0: fds, a1: 0, a2: 0 }),
{
    ecall(4, fds, 0, 0)
}

/// Kills a process.
pub fn kill(pid: i64) -> (c: Ecall)
    ensures
        c == (Ecall { id: 8, a0: pid as u64, a1: 0, a2: 0 }),
{
    ecall(8, pid as u64, 0, 0)
}

/// Reads from a descriptor.
pub fn read(fd: i64, buf: u64, len: u64) -> (c: Ecall)
    ensures
        c == (Ecall { id: 5, a0: fd as u64, a1: buf, a2: len }),
{
    ecall(5, fd as u64, buf, len)
}

/// Writes to a descriptor.
pub fn write(fd: i64, buf: u64, len: u64) -> (c: Ecall)
    ensures
        c == (Ecall { id: 6, a0: fd as u64, a1: buf, a2: len }),
{
    ecall(6, fd as u64, buf, len)
}

/// Closes a descriptor.
pub fn close(fd: i64) -> (c: Ecall)
    ensures
        c == (Ecall { id: 7, a0: fd as u64, a1: 0, a2: 0 }),
{
    ecall(7, fd as u64, 0, 0)
}

/// Replaces the program.
pub fn exec(path: u64, argv: u64) -> (c: Ecall)
    ensures
        c == (Ecall { id: 9, a0: path, a1: argv, a2: 0 }),
{
    ecall(9, path, argv, 0)
}

/// Replaces the program, with an environment.
pub fn execve(path: u64, argv: u64, envp: u64) -> (c: Ecall)
    ensures
        c == (Ecall { id: 34, a0: path, a1: argv, a2: envp }),
{
    ecall(34, path, argv, envp)
}

/// Number of the hart.
pub fn gethart() -> (c: Ecall)
    ensures
        c == (Ecall { id: 35, a0: 0, a1: 0, a2: 0 }),
{
    ecall(35, 0, 0, 0)
}

/// Opens a file.
pub fn open(path: u64, flags: i32) -> (c: Ecall)
    ensures
        c == (Ecall { id: 10, a0: path, a1: flags as u64, a2: 0 }),
{
    ecall(10, path, flags as u64, 0)
}

/// Copies a descriptor.
pub fn dup(fd: i64) -> (c: Ecall)
    ensures
        c == (Ecall { id: 11, a0: fd as u64, a1: 0, a2: 0 }),
{
    ecall(11, fd as u64, 0, 0)
}

/// Number of the process.
pub fn getpid() -> (c: Ecall)
    ensures
        c == (Ecall { id: 12, a0: 0, a1: 0, a2: 0 }),
{
    ecall(12, 0, 0, 0)
}

/// Moves the break.
pub fn sbrk(inc: i32) -> (c: Ecall)
    ensures
        c == (Ecall { id: 13, a0: inc as u64, a1: 0, a2: 0 }),
{
    ecall(13, inc as u64, 0, 0)
}

/// Sleeps for ticks.
pub fn sleep(n: u64) -> (c: Ecall)
    ensures
        c == (Ecall { id: 14, a0: n, a1: 0, a2: 0 }),
{
    ecall(14, n, 0, 0)
}

/// Milliseconds since boot.
pub fn time() -> (c: Ecall)
    ensures
        c == (Ecall { id: 44, a0: 0, a1: 0, a2: 0 }),
{
    ecall(44, 0, 0, 0)
}

/// Makes a directory.
pub fn mkdir(path: u64) -> (c: Ecall)
    ensures
        c == (Ecall { id: 17, a0: path, a1: 0, a2: 0 }),
{
    ecall(17, path, 0, 0)
}

/// Removes a name.
pub fn unlink(path: u64) -> (c: Ecall)
    ensures
        c == (Ecall { id: 19, a0: path, a1: 0, a2: 0 }),
{
    ecall(19, path, 0, 0)
}

/// Gives way.
pub fn yield_() -> (c: Ecall)
    ensures
        c == (Ecall { id: 21, a0: 0, a1: 0, a2: 0 }),
{
    ecall(21, 0, 0, 0)
}

/// Lists a directory.
pub fn getdents(path: u64, buf: u64, len: u64) -> (c: Ecall)
    ensures
        c == (Ecall { id: 22, a0: path, a1: buf, a2: len }),
{
    ecall(22, path, buf, len)
}

/// Turns the machine off.
pub fn shutdown() -> (c: Ecall)
    ensures
        c == (Ecall { id: 23, a0: 0, a1: 0, a2: 0 }),
{
    ecall(23, 0, 0, 0)
}

/// Makes a process the one that the interrupt key goes to.
pub fn setfg(pid: i64) -> (c: Ecall)
    ensures
        c == (Ecall { id: 24, a0: pid as u64, a1: 0, a2: 0 }),
{
    ecall(24, pid as u64, 0, 0)
}

/// Kind, size and names of what a descriptor leads to.
pub fn fstat(fd: i64, out: u64) -> (c: Ecall)
    ensures
        c == (Ecall { id: 20, a0: fd as u64, a1: out, a2: 0 }),
{
    ecall(20, fd as u64, out, 0)
}

/// A second name for a file.
pub fn link(path: u64, to: u64) -> (c: Ecall)
    ensures
        c == (Ecall { id: 18, a0: path, a1: to, a2: 0 }),
{
    ecall(18, path, to, 0)
}

/// Changes the working directory.
pub fn chdir(path: u64) -> (c: Ecall)
    ensures
        c == (Ecall { id: 16, a0: path, a1: 0, a2: 0 }),
{
    ecall(16, path, 0, 0)
}

/// Confines the process to a directory.
pub fn chroot(path: u64) -> (c: Ecall)
    ensures
        c == (Ecall { id: 45, a0: path, a1: 0, a2: 0 }),
{
    ecall(45, path, 0, 0)
}

/// Has the next child found a namespace.
pub fn unshare(flags: u64) -> (c: Ecall)
    ensures
        c == (Ecall { id: 46, a0: flags, a1: 0, a2: 0 }),
{
    ecall(46, flags, 0, 0)
}

/// Makes a group with a frame limit.
pub fn cgcreate(limit_frames: u64) -> (c: Ecall)
    ensures
        c == (Ecall { id: 47, a0: limit_frames, a1: 0, a2: 0 }),
{
    ecall(47, limit_frames, 0, 0)
}

/// Enters a group.
pub fn cgenter(id: i64) -> (c: Ecall)
    ensures
        c == (Ecall { id: 48, a0: id as u64, a1: 0, a2: 0 }),
{
    ecall(48, id as u64, 0, 0)
}

/// Sets the frame limit of a group; 0 is none.
pub fn cglimit(id: i64, limit_frames: u64) -> (c: Ecall)
    ensures
        c == (Ecall { id: 49, a0: id as u64, a1: limit_frames, a2: 0 }),
{
    ecall(49, id as u64, limit_frames, 0)
}

/// Caps the processor time of a group, in percent.
pub fn cgsetcpu(id: i64, pct: u64) -> (c: Ecall)
    ensures
        c == (Ecall { id: 50, a0: id as u64, a1: pct, a2: 0 }),
{
    ecall(50, id as u64, pct, 0)
}

/// Liveness and start of a process.
pub fn pidinfo(pid: i64) -> (c: Ecall)
    ensures
        c == (Ecall { id: 51, a0: pid as u64, a1: 0, a2: 0 }),
{
    ecall(51, pid as u64, 0, 0)
}

/// Exit code of a reaped process.
pub fn reapstat(pid: i64) -> (c: Ecall)
    ensures
        c == (Ecall { id: 52, a0: pid as u64, a1: 0, a2: 0 }),
{
    ecall(52, pid as u64, 0, 0)
}

/// Kills the processes of a group.
pub fn cgkill(cg: i64) -> (c: Ecall)
    ensures
        c == (Ecall { id: 53, a0: cg as u64, a1: 0, a2: 0 }),
{
    ecall(53, cg as u64, 0, 0)
}

/// Sets the weight of a group.
pub fn cgsetshare(id: i64, weight: u64) -> (c: Ecall)
    ensures
        c == (Ecall { id: 54, a0: id as u64, a1: weight, a2: 0 }),
{
    ecall(54, id as u64, weight, 0)
}

/// Joins the namespace of a process.
pub fn nsenter(pid: i64) -> (c: Ecall)
    ensures
        c == (Ecall { id: 55, a0: pid as u64, a1: 0, a2: 0 }),
{
    ecall(55, pid as u64, 0, 0)
}

/// The working directory.
pub fn getcwd(buf: u64, len: u64) -> (c: Ecall)
    ensures
        c == (Ecall { id: 25, a0: buf, a1: len, a2: 0 }),
{
    ecall(25, buf, len, 0)
}

/// Moves the offset of a descriptor.
pub fn lseek(fd: i64, off: i64, whence: u64) -> (c: Ecall)
    ensures
        c == (Ecall { id: 26, a0: fd as u64, a1: off as u64, a2: whence }),
{
    ecall(26, fd as u64, off as u64, whence)
}

/// Copies a descriptor to another.
pub fn dup2(from: i64, to: i64) -> (c: Ecall)
    ensures
        c == (Ecall { id: 27, a0: from as u64, a1: to as u64, a2: 0 }),
{
    ecall(27, from as u64, to as u64, 0)
}

/// Waits for a child: one by its number, or any for -1.
pub fn waitpid(pid: i64, code_out: u64, options: u64) -> (c: Ecall)
    ensures
        c == (Ecall { id: 28, a0: pid as u64, a1: code_out, a2: options }),
{
    ecall(28, pid as u64, code_out, options)
}

/// Blocks in all and free, as text.
pub fn fsstat(buf: u64, len: u64) -> (c: Ecall)
    ensures
        c == (Ecall { id: 29, a0: buf, a1: len, a2: 0 }),
{
    ecall(29, buf, len, 0)
}

/// Maps memory.
pub fn mmap(hint: u64, len: u64, prot: u64) -> (c: Ecall)
    ensures
        c == (Ecall { id: 30, a0: hint, a1: len, a2: prot }),
{
    ecall(30, hint, len, prot)
}

/// Gives mapped memory back.
pub fn munmap(addr: u64, len: u64) -> (c: Ecall)
    ensures
        c == (Ecall { id: 31, a0: addr, a1: len, a2: 0 }),
{
    ecall(31, addr, len, 0)
}

/// Free frames.
pub fn memstat() -> (c: Ecall)
    ensures
        c == (Ecall { id: 36, a0: 0, a1: 0, a2: 0 }),
{
    ecall(36, 0, 0, 0)
}

/// Milliseconds since boot.
pub fn uptime_ms() -> (c: Ecall)
    ensures
        c == (Ecall { id: 44, a0: 0, a1: 0, a2: 0 }),
{
    ecall(44, 0, 0, 0)
}

/// Opens a socket: 0 for datagrams, 1 for a stream.
pub fn socket(kind: u64) -> (c: Ecall)
    ensures
        c == (Ecall { id: 37, a0: kind, a1: 0, a2: 0 }),
{
    ecall(37, kind, 0, 0)
}

/// Sets the peer of a socket.
pub fn connect(fd: i64, ip_be: u32, port: u16) -> (c: Ecall)
    ensures
        c == (Ecall { id: 38, a0: fd as u64, a1: ip_be as u64, a2: port as u64 }),
{
    ecall(38, fd as u64, ip_be as u64, port as u64)
}

/// Sends.
pub fn send(fd: i64, buf: u64, len: u64) -> (c: Ecall)
    ensures
        c == (Ecall { id: 39, a0: fd as u64, a1: buf, a2: len }),
{
    ecall(39, fd as u64, buf, len)
}

/// Receives.
pub fn recv(fd: i64, buf: u64, len: u64) -> (c: Ecall)
    ensures
        c == (Ecall { id: 40, a0: fd as u64, a1: buf, a2: len }),
{
    ecall(40, fd as u64, buf, len)
}

/// Takes a port.
pub fn bind(fd: i64, port: u16) -> (c: Ecall)
    ensures
        c == (Ecall { id: 41, a0: fd as u64, a1: port as u64, a2: 0 }),
{
    ecall(41, fd as u64, port as u64, 0)
}

/// Waits for connections.
pub fn listen(fd: i64) -> (c: Ecall)
    ensures
        c == (Ecall { id: 42, a0: fd as u64, a1: 0, a2: 0 }),
{
    ecall(42, fd as u64, 0, 0)
}

/// Takes a connection.
pub fn accept(fd: i64) -> (c: Ecall)
    ensures
        c == (Ecall { id: 43, a0: fd as u64, a1: 0, a2: 0 }),
{
    ecall(43, fd as u64, 0, 0)
}

/// Lists the processes, as text.
pub fn ps(buf: u64, len: u64) -> (c: Ecall)
    ensures
        c == (Ecall { id: 32, a0: buf, a1: len, a2: 0 }),
{
    ecall(32, buf, len, 0)
}

/// Traces the calls of a process.
pub fn trace(pid: i64, on: u64) -> (c: Ecall)
    ensures
        c == (Ecall { id: 33, a0: pid as u64, a1: on, a2: 0 }),
{
    ecall(33, pid as u64, on, 0)
}

/// Writes text to the output.
pub fn print(buf: u64, len: u64) -> (c: Ecall)
    ensures
        c == (Ecall { id: 6, a0: 1, a1: buf, a2: len }),
{
    write(1, buf, len)
}

/// Writes text to the error output.
pub fn eprint(buf: u64, len: u64) -> (c: Ecall)
    ensures
        c == (Ecall { id: 6, a0: 2, a1: buf, a2: len }),
{
    write(2, buf, len)
}

/// How a line read byte by byte goes on.
#[derive(Clone, Copy, PartialEq, Eq, Structural, Debug)]
pub enum Line {
    /// Read one byte to this place.
    More { at: usize },
    /// The line has this many bytes.
    Done { len: usize },
}

/// After a read of one byte to place `n` of a buffer of `cap` bytes, which
/// returned `r`: the line ends with a line feed, with the buffer, or where
/// nothing more is read.
pub fn read_line(n: usize, cap: usize, r: i64, c: u8) -> (l: Line)
    requires
        n < cap,
    ensures
        l == if r <= 0 {
            Line::Done { len: n }
        } else if c == 0x0a || n + 1 >= cap {
            Line::Done { len: (n + 1) as usize }
        } else {
            Line::More { at: (n + 1) as usize }
        },
{
    if r <= 0 {
        Line::Done { len: n }
    } else if c == 0x0a || n + 1 >= cap {
        Line::Done { len: n + 1 }
    } else {
        Line::More { at: n + 1 }
    }
}

} // verus!
