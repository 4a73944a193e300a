//! Processes from their start to their end, and the calls they make.
use muse_os::fs::dev;
use muse_os::fs::dev::SECTOR;
use muse_os::fs::disk;
use muse_os::fs::ramfs::File;
use muse_os::fs::vfs;
use muse_os::hw::timer::Timer;
use muse_os::mem::frame;
use muse_os::mem::kernel;
use muse_os::mem::kernel::Sections;
use muse_os::mem::pagetable as pt;
use muse_os::mem::space;
use muse_os::mkfs::image::Image;
use muse_os::net::state::NetState;
use muse_os::sys::call;
use muse_os::sys::guard;
use muse_os::sys::serve;
use muse_os::sys::serve::{Kernel, Reply};
use muse_os::task::elf;
use muse_os::task::group;
use muse_os::task::life;
use muse_os::task::path;
use muse_os::task::proc;
use muse_os::task::sched;
use muse_os::task::sched::Next;
use muse_os::task::start;
use muse_os::task::state::{Sched, TRAPFRAME_VA};
use muse_os::task::wait;
use muse_os::trap::frame::TrapFrame;
use muse_os::trap::handler;
use muse_os::trap::handler::{Act, Cause, Traps};

const CODE: u64 = 0x10000;
const DATA: u64 = 0x10800;

fn program(code: &[u8]) -> Vec<u8> {
    let mut e = vec![0u8; 120];
    e[..6].copy_from_slice(&[0x7f, b'E', b'L', b'F', 2, 1]);
    e[0x18..0x20].copy_from_slice(&CODE.to_le_bytes());
    e[0x20..0x28].copy_from_slice(&64u64.to_le_bytes());
    e[0x36..0x38].copy_from_slice(&56u16.to_le_bytes());
    e[0x38..0x3a].copy_from_slice(&1u16.to_le_bytes());
    e[64..68].copy_from_slice(&1u32.to_le_bytes());
    e[68..72].copy_from_slice(&7u32.to_le_bytes());
    e[72..80].copy_from_slice(&120u64.to_le_bytes());
    e[80..88].copy_from_slice(&CODE.to_le_bytes());
    e[96..104].copy_from_slice(&(code.len() as u64).to_le_bytes());
    e[104..112].copy_from_slice(&0x1000u64.to_le_bytes());
    e.extend_from_slice(code);
    e
}

fn boot() -> Kernel {
    let mut m = frame::init(0x8040_0000);
    let s = Sections {
        stext: 0x8020_0000,
        etext: 0x8021_0000,
        srodata: 0x8022_0000,
        erodata: 0x8023_0000,
        sdata: 0x8023_0000,
        edata: 0x8024_0000,
        sbss: 0x8024_0000,
        ebss: 0x8025_0000,
    };
    let kroot = kernel::init_kernel_space(&mut m, &s).unwrap();
    let first = program(b"first program");
    let embed = vec![
        File { path: b"init".to_vec(), data: program(b"first program") },
        File { path: b"other".to_vec(), data: program(b"another one") },
    ];
    let mut fs = vfs::new(disk::new(dev::new(Vec::new(), false)), embed);
    vfs::init(&mut fs, b"read me");
    let (mut sch, pid) = start::init(&mut m, kroot, &first, 0, 0x8030_0000, 5);
    assert_eq!(pid, Some(1));
    match start::run(&mut sch, 0, 5) {
        Some(Next::Run { pid, .. }) => assert_eq!(pid, 1),
        other => panic!("{:?}", other),
    }
    Kernel { s: sch, m, k: muse_os::sys::file::new(fs), kroot }
}

fn root(x: &Kernel) -> u64 {
    start::with_current(&x.s, 0).unwrap().root
}

fn poke(x: &mut Kernel, at: u64, b: &[u8]) {
    let r = root(x);
    space::write_bytes_to(&mut x.m, r, at, b);
}

fn peek(x: &Kernel, at: u64, n: u64) -> Vec<u8> {
    guard::user_range(&x.m, root(x), at, n)
}

fn call3(x: &mut Kernel, id: u64, a0: u64, a1: u64, a2: u64) -> Reply {
    serve::handle(x, 0, id, a0, a1, a2, b"", 9, 0x8030_0000)
}

fn value(r: Reply) -> i64 {
    match r {
        Reply::Value { v } => v,
        Reply::Took { n, .. } => n as i64,
        Reply::Fault => panic!("fault"),
        _ => panic!("no value"),
    }
}

#[test]
fn a_program_starts_with_its_segments_and_a_zeroed_rest() {
    let x = boot();
    assert_eq!(peek(&x, CODE, 13), b"first program");
    assert_eq!(peek(&x, CODE + 13, 3), [0, 0, 0]);
    let p = start::with_current(&x.s, 0).unwrap();
    assert_eq!(p.name, b"init");
    assert_eq!(p.brk, proc::MIN_BRK);
    // The saved registers: entry and stack.
    assert_eq!(pt::rd_word(&x.m, p.tf_pa, 33), CODE);
    assert!(pt::rd_word(&x.m, p.tf_pa, 2) < 0x7000_0000);
}

#[test]
fn no_program_no_process() {
    assert!(elf::parse(b"#!/bin/sh").is_none());
    let mut bad = program(b"x");
    bad[4] = 1;
    assert!(elf::parse(&bad).is_none());
    let mut far = program(b"x");
    far[0x20] = 0xff;
    assert!(elf::parse(&far).is_none());
    assert_eq!(elf::parse(&program(b"x")).unwrap().progs.len(), 1);
}

#[test]
fn fork_copies_wait_reaps() {
    let mut x = boot();
    let free = frame::free_frames(&x.m);
    poke(&mut x, DATA, b"parent");
    assert_eq!(value(call3(&mut x, call::SYS_FORK, 0, 0, 0)), 2);
    assert_eq!(value(call3(&mut x, call::SYS_GETPID, 0, 0, 0)), 1);
    let child = x.s.procs[2].as_ref().unwrap();
    assert_eq!(guard::user_range(&x.m, child.root, DATA, 6), b"parent");
    assert_eq!(pt::rd_word(&x.m, child.tf_pa, 10), 0);
    // Nobody has ended yet.
    assert_eq!(value(call3(&mut x, call::SYS_WAIT, 0, 0, 0)), -2);
    // The parent blocks, the child runs and ends, the parent is woken.
    assert!(life::take_yield_flag(&mut x.s, 0));
    match sched::schedule_point(&mut x.s, 0, 9) {
        Next::Run { pid, .. } => assert_eq!(pid, 2),
        other => panic!("{:?}", other),
    }
    match life::exit(&mut x.s, 2, 42, 0, 9) {
        Next::Run { pid, .. } => assert_eq!(pid, 1),
        other => panic!("{:?}", other),
    }
    assert_eq!(value(call3(&mut x, call::SYS_WAIT, DATA, 0, 0)), 2);
    assert_eq!(peek(&x, DATA, 4), 42i32.to_le_bytes());
    assert_eq!(value(call3(&mut x, call::SYS_WAIT, 0, 0, 0)), -1);
    assert_eq!(frame::free_frames(&x.m), free);
    assert_eq!(life::reapstat(&x.s, 2), 0x1_0000 + 42);
}

#[test]
fn exec_replaces_the_program_and_hands_arguments_over() {
    let mut x = boot();
    poke(&mut x, DATA, b"/bin/other\0");
    poke(&mut x, DATA + 32, b"a1\0");
    let mut v = Vec::new();
    v.extend_from_slice(&(DATA + 32).to_le_bytes());
    v.extend_from_slice(&0u64.to_le_bytes());
    poke(&mut x, DATA + 64, &v);
    assert_eq!(value(call3(&mut x, call::SYS_EXEC, DATA, DATA + 64, 0)), 0);
    assert_eq!(peek(&x, CODE, 11), b"another one");
    let p = start::with_current(&x.s, 0).unwrap();
    let sp = pt::rd_word(&x.m, p.tf_pa, 2);
    assert_eq!(peek(&x, sp, 8), 1u64.to_le_bytes());
    let a = peek(&x, sp + 8, 8);
    let at = u64::from_le_bytes(a.try_into().unwrap());
    assert_eq!(peek(&x, at, 3), b"a1\0");
    // No such file.
    poke(&mut x, DATA, b"/bin/none\0");
    assert_eq!(value(call3(&mut x, call::SYS_EXEC, DATA, 0, 0)), -1);
}

#[test]
fn a_program_that_wants_the_kernels_pages_is_refused() {
    let mut x = boot();
    let mut e = program(b"x");
    e[80..88].copy_from_slice(&0x8020_0000u64.to_le_bytes());
    vfs::write_file(&mut x.k.fs, b"/bin/greedy", &e);
    poke(&mut x, DATA, b"/bin/greedy\0");
    assert_eq!(value(call3(&mut x, call::SYS_EXEC, DATA, 0, 0)), -1);
    // So is one with a part that it may not even read.
    let mut e = program(b"x");
    e[68..72].copy_from_slice(&0u32.to_le_bytes());
    vfs::write_file(&mut x.k.fs, b"/bin/barred", &e);
    poke(&mut x, DATA, b"/bin/barred\0");
    assert_eq!(value(call3(&mut x, call::SYS_EXEC, DATA, 0, 0)), -1);
    assert_eq!(peek(&x, CODE, 13), b"first program");
    // A part with nothing in it does not matter.
    let mut e = program(b"");
    e[0x38..0x3a].copy_from_slice(&2u16.to_le_bytes());
    e[72..80].copy_from_slice(&176u64.to_le_bytes());
    e[96..104].copy_from_slice(&9u64.to_le_bytes());
    e.extend_from_slice(&1u32.to_le_bytes());
    e.extend_from_slice(&[0u8; 52]);
    e.extend_from_slice(b"two parts");
    vfs::write_file(&mut x.k.fs, b"/bin/parts", &e);
    poke(&mut x, DATA, b"/bin/parts\0");
    assert_eq!(value(call3(&mut x, call::SYS_EXEC, DATA, 0, 0)), 0);
    assert_eq!(peek(&x, CODE, 9), b"two parts");
}

#[test]
fn files_are_opened_written_and_read() {
    let mut x = boot();
    poke(&mut x, DATA, b"/etc/motd\0");
    assert_eq!(value(call3(&mut x, call::SYS_OPEN, DATA, 0, 0)), -1);
    let fd = value(call3(&mut x, call::SYS_OPEN, DATA, 0x40, 0));
    assert_eq!(fd, 3);
    poke(&mut x, DATA + 64, b"hello, disk");
    assert_eq!(value(call3(&mut x, call::SYS_WRITE, 3, DATA + 64, 11)), 11);
    assert_eq!(value(call3(&mut x, call::SYS_CLOSE, 3, 0, 0)), 0);
    assert_eq!(value(call3(&mut x, call::SYS_OPEN, DATA, 0, 0)), 3);
    assert_eq!(value(call3(&mut x, call::SYS_READ, 3, DATA + 128, 5)), 5);
    assert_eq!(value(call3(&mut x, call::SYS_READ, 3, DATA + 133, 50)), 6);
    assert_eq!(peek(&x, DATA + 128, 11), b"hello, disk");
    assert_eq!(value(call3(&mut x, call::SYS_FSTAT, 3, DATA + 256, 0)), 0);
    assert_eq!(peek(&x, DATA + 256, 8), [4, 0, 0, 0, 11, 0, 0, 0]);
    assert_eq!(value(call3(&mut x, call::SYS_DUP, 3, 0, 0)), 4);
    assert_eq!(value(call3(&mut x, call::SYS_DUP, 9, 0, 0)), -1);
    assert_eq!(value(call3(&mut x, call::SYS_UNLINK, DATA, 0, 0)), 0);
    assert_eq!(value(call3(&mut x, call::SYS_UNLINK, DATA, 0, 0)), -1);
}

#[test]
fn a_path_must_be_text() {
    let mut x = boot();
    poke(&mut x, DATA, &[b'/', 0xff, 0xfe, 0]);
    assert_eq!(value(call3(&mut x, call::SYS_OPEN, DATA, 0x40, 0)), -1);
    poke(&mut x, DATA, "/caf\u{e9}\0".as_bytes());
    assert_eq!(value(call3(&mut x, call::SYS_OPEN, DATA, 0x40, 0)), 3);
    assert_eq!(value(call3(&mut x, call::SYS_OPEN, 0, 0x40, 0)), -1);
}

#[test]
fn pipes_join_descriptors() {
    let mut x = boot();
    assert_eq!(value(call3(&mut x, call::SYS_PIPE, DATA, 0, 0)), 0);
    assert_eq!(peek(&x, DATA, 8), [3, 0, 0, 0, 4, 0, 0, 0]);
    poke(&mut x, DATA + 64, b"through");
    assert_eq!(value(call3(&mut x, call::SYS_WRITE, 4, DATA + 64, 7)), 7);
    assert_eq!(value(call3(&mut x, call::SYS_READ, 3, DATA + 128, 100)), 7);
    assert_eq!(peek(&x, DATA + 128, 7), b"through");
    assert_eq!(value(call3(&mut x, call::SYS_READ, 3, DATA + 128, 100)), 0);
    assert_eq!(value(call3(&mut x, call::SYS_PIPE, 0, 0, 0)), -1);
}

#[test]
fn the_console_is_printed_to_and_read_from() {
    let mut x = boot();
    poke(&mut x, DATA, b"out\n");
    match call3(&mut x, call::SYS_WRITE, 1, DATA, 4) {
        Reply::Print { bytes } => assert_eq!(bytes, b"out\n"),
        _ => panic!("not printed"),
    }
    match serve::handle(&mut x, 0, call::SYS_READ, 0, DATA, 16, b"ls\nrest", 9, 0) {
        Reply::Took { n, used } => assert_eq!((n, used), (3, 3)),
        _ => panic!("not read"),
    }
    assert_eq!(peek(&x, DATA, 3), b"ls\n");
    // Nothing there: the process gives way.
    assert_eq!(value(call3(&mut x, call::SYS_READ, 0, DATA, 16)), 0);
    assert!(life::take_yield_flag(&mut x.s, 0));
}

#[test]
fn the_break_moves_up_over_zeroed_pages() {
    let mut x = boot();
    let b = value(call3(&mut x, call::SYS_SBRK, 0, 0, 0)) as u64;
    assert_eq!(value(call3(&mut x, call::SYS_SBRK, 5000, 0, 0)) as u64, b);
    assert_eq!(value(call3(&mut x, call::SYS_SBRK, 0, 0, 0)) as u64, b + 5000);
    assert_eq!(peek(&x, b, 5000), vec![0; 5000]);
    assert_eq!(value(call3(&mut x, call::SYS_SBRK, -1i64 as u64, 0, 0)) as u64, b + 5000);
}

#[test]
fn other_calls() {
    let mut x = boot();
    assert!(matches!(call3(&mut x, call::SYS_EXIT, 7, 0, 0), Reply::Leave { code: 7 }));
    assert!(matches!(call3(&mut x, call::SYS_SLEEP, 20, 0, 0), Reply::Sleep { ticks: 20 }));
    assert!(matches!(call3(&mut x, call::SYS_SHUTDOWN, 0, 0, 0), Reply::Off));
    assert!(matches!(
        serve::handle(&mut x, 0, call::SYS_READ, 0, 0x5000_0000, 4, b"ls\n", 9, 0),
        Reply::Fault
    ));
    assert_eq!(value(call3(&mut x, 99, 0, 0, 0)), -1);
    assert_eq!(value(call3(&mut x, call::SYS_CHDIR, 0, 0, 0)), 0);
    assert_eq!(value(call3(&mut x, call::SYS_MKNOD, 0, 0, 0)), 0);
    assert_eq!(value(call3(&mut x, call::SYS_YIELD, 0, 0, 0)), 0);
    assert!(life::take_yield_flag(&mut x.s, 0));
    assert_eq!(value(call3(&mut x, call::SYS_KILL, 77, 0, 0)), -1);
    poke(&mut x, DATA, b"/newdir\0");
    assert_eq!(value(call3(&mut x, call::SYS_MKDIR, DATA, 0, 0)), 0);
    poke(&mut x, DATA, b"/\0");
    let n = value(call3(&mut x, call::SYS_GETDENTS, DATA, DATA + 64, 200));
    assert!(n >= 3);
    assert_eq!(value(call3(&mut x, call::SYS_GETDENTS, DATA, 0, 200)), -1);
}

#[test]
fn a_killed_process_is_reported() {
    let mut x = boot();
    assert_eq!(value(call3(&mut x, call::SYS_FORK, 0, 0, 0)), 2);
    assert_eq!(value(call3(&mut x, call::SYS_KILL, 2, 0, 0)), 0);
    assert!(life::is_killed(&x.s, 2));
    assert!(!life::is_killed(&x.s, 1));
    assert_eq!(life::kill_code(&x.s, 2), life::KILLED);
}

#[test]
fn jails_hold() {
    assert_eq!(path::resolve_path(b"/jail", b"/", b"../../etc/passwd"), b"/jail/etc/passwd");
    assert_eq!(path::resolve_path(b"/", b"/home", b"./a//b/../c"), b"/home/a/c");
    assert_eq!(path::resolve_path(b"/", b"/", b".."), b"/");
}

#[test]
fn harts_idle_with_frames_of_their_own() {
    let mut m = frame::init(0x8040_0000);
    let f = start::idle_init(&mut m, 0x8030_0000, 0x8020_1234);
    assert_eq!(f, [0x8040_0000, 0x8040_1000, 0x8040_2000, 0x8040_3000]);
    assert_eq!(pt::rd_word(&m, f[1], 33), 0x8020_1234);
    assert_eq!(pt::rd_word(&m, f[1], 32), 0x120);
    assert_eq!(pt::rd_word(&m, f[1], 2), 0x8030_0000 + 2 * 16384);
}

#[test]
fn nobody_waits_for_nothing() {
    let mut x = boot();
    let pid = life::current_pid(&x.s, 0);
    let (c, _) = wait::wait(&mut x.s, &mut x.m, x.kroot, pid, 0);
    assert_eq!(c, wait::NONE_LEFT);
}

#[test]
fn directories_of_a_process() {
    let mut x = boot();
    assert!(!path::set_cwd(&mut x.s, 1, b"bin"));
    assert!(!path::set_cwd(&mut x.s, 7, b"/bin"));
    assert!(path::set_cwd(&mut x.s, 1, b"/bin"));
    assert_eq!(path::resolve_for(&x.s, 1, b"ls"), b"/bin/ls");
    assert_eq!(path::resolve_for(&x.s, 1, b"../../etc/./conf"), b"/etc/conf");
    assert_eq!(path::resolve_for(&x.s, 9, b"ls"), b"/ls");
    // A jail starts over at its root, and holds.
    assert!(path::set_root(&mut x.s, 1, b"/jail"));
    assert_eq!(path::resolve_for(&x.s, 1, b"ls"), b"/jail/ls");
    assert_eq!(path::resolve_for(&x.s, 1, b"/../../etc"), b"/jail/etc");
    let brk = start::with_current(&x.s, 0).unwrap().brk;
    assert_eq!(path::ps_snapshot(&x.s, 1), format!("1 0 R {} /\n", brk).into_bytes());
}

#[test]
fn marks_of_a_process() {
    let mut x = boot();
    assert!(life::scheduler_active(&x.s));
    assert_eq!(life::current_lpid(&x.s, 0), 1);
    assert!(!life::is_traced(&x.s, 1));
    assert!(life::set_traced(&mut x.s, 1, true));
    assert!(!life::set_traced(&mut x.s, 9, true));
    assert!(life::is_traced(&x.s, 1));
    life::set_fg_global(&mut x.s, 0, 1);
    assert_eq!(x.s.fg_pid, 1);
    if let Some(p) = start::with_current_mut(&mut x.s, 0) {
        p.kill_code = 3;
    }
    assert_eq!(life::kill_code(&x.s, 1), 3);
}

#[test]
fn groups_are_capped_and_killed() {
    let mut x = boot();
    let g = group::cgcreate(&mut x.s, &mut x.m, 0, 50);
    assert_eq!(g, 1);
    assert!(!group::cgenter(&mut x.s, 0, 2));
    assert_eq!(value(call3(&mut x, call::SYS_FORK, 0, 0, 0)), 2);
    assert!(group::cgenter(&mut x.s, 0, g));
    assert_eq!(life::current_cg(&x.s, 0), 1);
    assert!(group::cgsetlimit(&x.s, &mut x.m, g, 7));
    assert!(!group::cgsetlimit(&x.s, &mut x.m, 5, 7));
    assert_eq!(frame::cg_lim(&x.m, g), 7);
    assert!(group::cg_set_cpu(&mut x.s, g, 30));
    assert!(!group::cg_set_cpu(&mut x.s, 5, 30));
    assert_eq!(x.s.cpu[1].cap, 31);
    group::cg_tick(&mut x.s, 0, 3);
    assert_eq!(x.s.cpu[1].ticks, 1);
    // Two ticks of four are more than thirty percent, one is not.
    assert!(!sched::cg_over_quota(&x.s, g, 3));
    group::cg_tick(&mut x.s, 0, 3);
    assert!(sched::cg_over_quota(&x.s, g, 3));
    assert!(!sched::cg_over_quota(&x.s, g, 103));
    // The one that asks is spared, and others of other groups are.
    assert_eq!(life::cg_kill(&mut x.s, 0, g), 0);
    assert_eq!(life::cg_kill(&mut x.s, 0, 0), -1);
    assert!(!life::is_killed(&x.s, 1));
    assert!(!life::is_killed(&x.s, 2));
}

#[test]
fn traps_leave_memory_alone() {
    let mut x = boot();
    assert_eq!(value(call3(&mut x, call::SYS_FORK, 0, 0, 0)), 2);
    let held = |s: &Sched| -> Vec<(u64, u64, u64)> {
        s.procs.iter().flatten().map(|p| (p.root, p.tf_pa, p.brk)).collect()
    };
    let before = held(&x.s);
    assert_eq!(before.len(), 2);
    let mut t = Traps { s: x.s, n: NetState::new([2; 6]), net_ready: false, t: Timer::new(), soft: [false; 4] };
    let mut f = TrapFrame::empty();
    let tick = Cause { scause: 0x8000_0000_0000_0005, sstatus: 0, sepc: 0, idle_lo: 1, idle_hi: 2 };
    for _ in 0..4 {
        handler::rust_trap_handler(&mut t, &mut f, 0, &tick, 100);
        handler::trap_end(&mut t, 0);
    }
    assert_eq!(held(&t.s), before);
    // Every tick counts for the group of the one that runs.
    assert_eq!((t.s.cpu[0].ticks, t.s.cpu[0].win_use), (4, 4));
    // Even of the one that faults, until somebody waits for it.
    let fault = Cause { scause: 13, ..tick };
    f.sepc = u64::MAX - 1;
    let a = handler::rust_trap_handler(&mut t, &mut f, 0, &fault, u64::MAX);
    assert!(matches!(a, Act::Exit { code: -2, .. }));
    assert_eq!(f.sepc, u64::MAX - 1);
    assert_eq!(held(&t.s), before);
}

#[test]
fn a_program_starts_with_just_enough_frames() {
    let s = Sections {
        stext: 0x8020_0000,
        etext: 0x8021_0000,
        srodata: 0x8022_0000,
        erodata: 0x8023_0000,
        sdata: 0x8023_0000,
        edata: 0x8024_0000,
        sbss: 0x8024_0000,
        ebss: 0x8025_0000,
    };
    let first = program(b"first program");
    let mut m = frame::init(0x8040_0000);
    let kroot = kernel::init_kernel_space(&mut m, &s).unwrap();
    let before = frame::free_frames(&m);
    let (_, pid) = start::init(&mut m, kroot, &first, 0, 0x8030_0000, 5);
    assert_eq!(pid, Some(1));
    let need = before - frame::free_frames(&m);

    for (left, works) in [(need, true), (need - 1, false)] {
        let mut m = frame::init(0x8040_0000);
        let kroot = kernel::init_kernel_space(&mut m, &s).unwrap();
        while frame::free_frames(&m) > left {
            assert!(frame::alloc_frame_cg(&mut m, 0).is_some());
        }
        let (_, pid) = start::init(&mut m, kroot, &first, 0, 0x8030_0000, 5);
        assert_eq!(pid.is_some(), works);
        assert_eq!(frame::free_frames(&m), if works { 0 } else { left });
    }
}

/// Memory that no program has.
const NOWHERE: u64 = 0x5000_0000;

#[test]
fn a_fault_needs_a_byte_that_is_not_there() {
    let mut x = boot();
    // The last bytes of the only page.
    let edge = CODE + 0x1000 - 8;
    poke(&mut x, DATA, b"/note\0");
    vfs::write_file(&mut x.k.fs, b"/note", b"short");
    assert_eq!(value(call3(&mut x, call::SYS_OPEN, DATA, 0, 0)), 3);
    assert_eq!(value(call3(&mut x, call::SYS_READ, 3, edge, 100)), 5);
    assert_eq!(peek(&x, edge, 5), b"short");
    // At the end, nothing moves.
    assert_eq!(value(call3(&mut x, call::SYS_READ, 3, NOWHERE, 100)), 0);
    vfs::write_file(&mut x.k.fs, b"/note", b"short no longer");
    assert!(matches!(call3(&mut x, call::SYS_READ, 3, edge, 100), Reply::Fault));
    assert_eq!(value(call3(&mut x, call::SYS_READ, 9, NOWHERE, 100)), 0);
    assert_eq!(value(call3(&mut x, call::SYS_WRITE, 9, NOWHERE, 100)), 0);
    assert!(matches!(call3(&mut x, call::SYS_WRITE, 1, NOWHERE, 1), Reply::Fault));
    assert_eq!(value(call3(&mut x, call::SYS_WAIT, NOWHERE, 0, 0)), -1);
    // Names of a directory, into what there is of the buffer.
    poke(&mut x, DATA, b"/sub\0");
    assert_eq!(value(call3(&mut x, call::SYS_MKDIR, DATA, 0, 0)), 0);
    vfs::write_file(&mut x.k.fs, b"/sub/a", b"");
    let n = value(call3(&mut x, call::SYS_GETDENTS, DATA, DATA + 64, 200));
    assert!(n >= 1);
    let all = peek(&x, DATA + 64, 2);
    assert_eq!(value(call3(&mut x, call::SYS_GETDENTS, DATA, edge, 200)), n);
    assert_eq!(peek(&x, edge, 2), all);
    assert!(matches!(call3(&mut x, call::SYS_GETDENTS, DATA, NOWHERE, 200), Reply::Fault));
    // A path that is none answers for what stands behind it.
    assert_eq!(value(call3(&mut x, call::SYS_EXEC, 0, NOWHERE, 0)), -1);
    assert_eq!(value(call3(&mut x, call::SYS_LINK, 0, NOWHERE, 0)), -1);
    assert!(matches!(call3(&mut x, call::SYS_EXEC, DATA, NOWHERE, 0), Reply::Fault));
    assert!(matches!(call3(&mut x, call::SYS_LINK, DATA, NOWHERE, 0), Reply::Fault));
    // No descriptor left: no pipe, and nothing to report.
    while value(call3(&mut x, call::SYS_DUP, 3, 0, 0)) >= 0 {}
    assert_eq!(value(call3(&mut x, call::SYS_PIPE, NOWHERE, 0, 0)), -1);
}

#[test]
fn what_cannot_be_finished_gives_every_frame_back() {
    for id in [call::SYS_FORK, call::SYS_EXEC] {
        let mut x = boot();
        let g = group::cgcreate(&mut x.s, &mut x.m, 0, 50);
        assert!(group::cgenter(&mut x.s, 0, g));
        poke(&mut x, DATA, b"/bin/other\0");
        let before = (frame::free_frames(&x.m), frame::cg_use(&x.m, g));
        let mut lim = 1;
        loop {
            assert!(group::cgsetlimit(&x.s, &mut x.m, g, lim));
            if value(call3(&mut x, id, DATA, 0, 0)) != -1 {
                break;
            }
            assert_eq!((frame::free_frames(&x.m), frame::cg_use(&x.m, g)), before);
            assert_eq!(peek(&x, CODE, 13), b"first program");
            lim += 1;
        }
        // A root, tables and pages, and not one more than the limit.
        assert!(lim > 4);
        assert_eq!(frame::cg_use(&x.m, g), lim);
    }
}

#[test]
fn the_break_takes_the_pages_that_fit() {
    let mut x = boot();
    let g = group::cgcreate(&mut x.s, &mut x.m, 0, 50);
    assert!(group::cgenter(&mut x.s, 0, g));
    assert!(group::cgsetlimit(&x.s, &mut x.m, g, 3));
    let b = value(call3(&mut x, call::SYS_SBRK, 5 * 4096, 0, 0)) as u64;
    assert_eq!(b, proc::MIN_BRK);
    assert_eq!(frame::cg_use(&x.m, g), 3);
    assert_eq!(peek(&x, b, 3 * 4096), vec![0; 3 * 4096]);
    assert!(!guard::byte_ready(&x.m, root(&x), b + 3 * 4096));
    assert_eq!(value(call3(&mut x, call::SYS_SBRK, 0, 0, 0)) as u64, b + 5 * 4096);
}

#[test]
fn shutting_down_marks_the_disk_clean() {
    let mut x = boot();
    let img = Image::new(1);
    let sectors = img
        .data
        .chunks(SECTOR)
        .map(|c| {
            let mut s = [0u8; SECTOR];
            s.copy_from_slice(c);
            s
        })
        .collect();
    let mut fs = vfs::new(disk::new(dev::new(sectors, true)), Vec::new());
    vfs::init(&mut fs, b"");
    assert!(vfs::use_disk(&fs));
    disk::set_dirty(&mut fs.disk, true);
    x.k = muse_os::sys::file::new(fs);
    assert!(matches!(call3(&mut x, call::SYS_SHUTDOWN, 0, 0, 0), Reply::Off));
    let mut b = [0u8; SECTOR];
    assert!(dev::read_block(&x.k.fs.disk.blk.dev, 0, &mut b));
    assert_eq!(&b[48..52], &[0, 0, 0, 0]);
}

#[test]
fn a_write_that_the_disk_ends_needs_no_more_bytes() {
    let mut x = boot();
    let img = Image::new(100);
    let sectors = img
        .data
        .chunks(SECTOR)
        .map(|c| {
            let mut s = [0u8; SECTOR];
            s.copy_from_slice(c);
            s
        })
        .collect();
    let mut fs = vfs::new(disk::new(dev::new(sectors, true)), Vec::new());
    vfs::init(&mut fs, b"");
    x.k = muse_os::sys::file::new(fs);
    poke(&mut x, DATA, b"/last\0");
    let fd = value(call3(&mut x, call::SYS_OPEN, DATA, 0x40, 0)) as u64;
    // The disk fills up but for one block.
    let mut f = 0u8;
    while disk::free_blocks(&mut x.k.fs.disk) > 1 {
        let name = [b'/', b'f', b'0' + f];
        assert!(disk::create_empty(&mut x.k.fs.disk, &name));
        let left = disk::free_blocks(&mut x.k.fs.disk) as usize - 1;
        let n = left.min(8);
        assert_eq!(disk::write_at(&mut x.k.fs.disk, &name, 0, &vec![1u8; n * 512]), n * 512);
        if n == 8 {
            disk::write_at(&mut x.k.fs.disk, &name, 8 * 512, &vec![1u8; (left - 8).saturating_sub(1).min(128) * 512]);
        }
        f += 1;
    }
    let page = CODE + 0x1000;
    poke(&mut x, page - 512, &[7u8; 512]);
    // All of the block is there; the rest has no room.
    assert_eq!(value(call3(&mut x, call::SYS_WRITE, fd, page - 512, 2000)), 512);
    assert_eq!(disk::read_file(&mut x.k.fs.disk, b"/last").unwrap(), [7u8; 512]);
    assert_eq!(value(call3(&mut x, call::SYS_WRITE, fd, NOWHERE, 2000)), 0);
    // A byte that would be written is not.
    assert!(disk::unlink(&mut x.k.fs.disk, b"/f0"));
    assert!(matches!(call3(&mut x, call::SYS_WRITE, fd, NOWHERE, 2000), Reply::Fault));
    assert_eq!(disk::file_len(&mut x.k.fs.disk, b"/last"), Some(512));
}

/// The entry that maps a page; 0 without a table for it.
fn leaf(x: &Kernel, root: u64, va: u64) -> u64 {
    let mut t = root;
    for level in [2, 1] {
        let e = pt::rd_word(&x.m, t, pt::vpn(va, level));
        if e & pt::PTE_V == 0 {
            return 0;
        }
        t = pt::pte_pa(e);
    }
    pt::rd_word(&x.m, t, pt::vpn(va, 0))
}

/// The kernel's pages and the saved registers are where the kernel looks for
/// them, and not the program's.
fn assert_seated(x: &Kernel, root: u64, tf_pa: u64) {
    let rw = pt::PTE_R | pt::PTE_W | pt::PTE_VAD;
    let rwx = pt::PTE_RWX | pt::PTE_VAD;
    assert_eq!(leaf(x, root, TRAPFRAME_VA), pt::pte_new(tf_pa, rw));
    for va in [0x8000_0000, 0x8020_0000, 0x8030_0000, 0x8040_0000] {
        assert_eq!(leaf(x, root, va), pt::pte_new(va, rwx));
    }
    for va in [kernel::MMIO_START, kernel::PLIC_START, kernel::PLIC_END - 0x1000] {
        assert_eq!(leaf(x, root, va), pt::pte_new(va, rw));
    }
}

#[test]
fn every_address_space_has_the_kernel_and_the_saved_registers() {
    let mut x = boot();
    let p = start::with_current(&x.s, 0).unwrap();
    assert_seated(&x, p.root, p.tf_pa);
    assert_eq!(value(call3(&mut x, call::SYS_FORK, 0, 0, 0)), 2);
    let child = x.s.procs[2].as_ref().unwrap();
    assert_seated(&x, child.root, child.tf_pa);
    poke(&mut x, DATA, b"/bin/other\0");
    assert_eq!(value(call3(&mut x, call::SYS_EXEC, DATA, 0, 0)), 0);
    let p = start::with_current(&x.s, 0).unwrap();
    assert_seated(&x, p.root, p.tf_pa);
    assert_ne!(p.tf_pa, x.s.procs[2].as_ref().unwrap().tf_pa);
}

#[test]
fn a_child_may_do_with_a_page_what_its_parent_may() {
    let mut x = boot();
    let r = root(&x);
    let ro = 0x5000_0000;
    assert!(space::alloc_map_user(&mut x.m, r, ro, 0x1000, pt::PTE_R | pt::PTE_U, 0));
    assert_eq!(value(call3(&mut x, call::SYS_FORK, 0, 0, 0)), 2);
    let c = x.s.procs[2].as_ref().unwrap().root;
    let stack = 0x7000_0000 - 0x1000;
    for va in [CODE, ro, stack] {
        let (mine, childs) = (leaf(&x, r, va), leaf(&x, c, va));
        assert_ne!(pt::pte_pa(mine), pt::pte_pa(childs));
        assert_eq!(pt::pte_flags(mine) & 30, pt::pte_flags(childs) & 30);
    }
    assert_eq!(pt::pte_flags(leaf(&x, c, ro)) & 30, pt::PTE_R | pt::PTE_U);
    assert_eq!(pt::pte_flags(leaf(&x, c, stack)) & pt::PTE_W, pt::PTE_W);
}

#[test]
fn a_resolved_path_stays_as_it_is() {
    for p in [&b"/a/./b//../c/"[..], b"..", b"", b"x/../../y", b"/"] {
        let once = path::resolve_path(b"/", b"/home/me", p);
        assert_eq!(path::resolve_path(b"/", b"/", &once), once);
        assert_eq!(path::resolve_path(b"/", b"/elsewhere", &once), once);
    }
    assert_eq!(path::resolve_path(b"/", b"/home/me", b"x/../../y"), b"/home/y");
}

/// A child is made, ends with a code, and is reaped.
fn one_child(x: &mut Kernel, code: i32) -> usize {
    let pid = value(call3(x, call::SYS_FORK, 0, 0, 0)) as usize;
    assert_eq!(value(call3(x, call::SYS_WAIT, 0, 0, 0)), -2);
    assert!(life::take_yield_flag(&mut x.s, 0));
    match sched::schedule_point(&mut x.s, 0, 9) {
        Next::Run { pid: p, .. } => assert_eq!(p, pid),
        other => panic!("{:?}", other),
    }
    life::exit(&mut x.s, pid, code, 0, 9);
    assert_eq!(value(call3(x, call::SYS_WAIT, 0, 0, 0)), pid as i64);
    pid
}

#[test]
fn an_exit_code_is_remembered_over_thirty_one_others() {
    let mut x = boot();
    let first = one_child(&mut x, 42);
    for k in 0..31 {
        assert_eq!(life::reapstat(&x.s, first), 0x1_0000 + 42, "after {}", k);
        one_child(&mut x, k);
    }
    assert_eq!(life::reapstat(&x.s, first), 0x1_0000 + 42);
    let last = one_child(&mut x, -3);
    assert_eq!(life::reapstat(&x.s, first), -1);
    assert_eq!(life::reapstat(&x.s, first + 1), 0x1_0000);
    assert_eq!(life::reapstat(&x.s, last), 0x1_0000 - 3);
    // One that runs, and one that never was.
    assert_eq!(life::reapstat(&x.s, 1), -1);
    assert_eq!(life::reapstat(&x.s, last + 1), -1);
}

#[test]
fn a_mapped_page_translates_and_no_other() {
    let mut x = boot();
    let r = root(&x);
    let (va, other) = (0x5000_0000u64, 0x5000_1000u64);
    let pa = frame::alloc_frame_cg(&mut x.m, 0).unwrap();
    let there = pt::translate(&x.m, r, CODE + 5);
    assert!(pt::translate(&x.m, r, va).is_none());
    assert!(pt::map_one(&mut x.m, r, va, pa, pt::PTE_R | pt::PTE_U | pt::PTE_VAD, 0));
    assert_eq!(pt::translate(&x.m, r, va), Some(pa));
    assert_eq!(pt::translate(&x.m, r, va + 0xabc), Some(pa + 0xabc));
    assert!(pt::translate(&x.m, r, other).is_none());
    assert_eq!(pt::translate(&x.m, r, CODE + 5), there);
}
