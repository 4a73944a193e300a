//! The small board: tasks, traps, timer and shell.
use muse_os::eos::clint;
use muse_os::eos::report;
use muse_os::eos::shell;
use muse_os::eos::shell::{Area, Do, Machine, Shell};
use muse_os::eos::task;
use muse_os::eos::task::Eos;
use muse_os::eos::trap;
use muse_os::eos::trap::Act;
use muse_os::eos::uart;
use muse_os::eos::uart::Console;
use muse_os::eos::worker;
use muse_os::eos::worker::Worker;

fn board() -> Eos {
    let mut e = Eos::new();
    for (i, name) in ["shell", "blink", "fib"].into_iter().enumerate() {
        task::task_init(&mut e, i, 0x8001_0000 + 0x1000 * i as u32, 0x8000_0100 * (i as u32 + 1) / 2, 0x99, name);
    }
    e
}

fn machine() -> Machine {
    let a = Area { lo: 0x8000_0000, hi: 0x8000_1000 };
    Machine { hart: 0, code: a, rodata: a, data: a, bss: a, boot_stack: a, time: 1234, alarm: 5678 }
}

fn say(e: &Eos, line: &[u8]) -> String {
    String::from_utf8(shell::exec_line(e, &machine(), line).text).unwrap()
}

#[test]
fn tasks_take_turns() {
    assert_eq!(Eos::new().tasks.map(|t| t.name), ["shell", "blink", "fib"]);
    let mut e = board();
    assert!(e.tasks[1].alive);
    assert_eq!(e.tasks[1].frame.regs[1], 0x99);
    let mut seen = Vec::new();
    for _ in 0..4 {
        task::schedule(&mut e);
        seen.push(e.current);
    }
    assert_eq!(seen, [1, 2, 0, 1]);
    e.tasks[2].alive = false;
    task::schedule(&mut e);
    assert_eq!(e.current, 0);
}

#[test]
fn a_fault_kills_a_worker_and_not_the_shell() {
    let mut e = board();
    e.current = 1;
    assert_eq!(trap::rust_trap(&mut e, 2, 0, None), Act::Killed { id: 1 });
    // While the report is made the task is still the current one.
    assert!(e.dumping && e.tasks[1].alive);
    assert_eq!(e.current, 1);
    trap::kill_current(&mut e);
    assert!(!e.dumping && !e.tasks[1].alive);
    assert!(e.tasks[0].alive);
    assert_eq!(e.current, 2);
    // The next fault is reported again, one during the report is not.
    assert_eq!(trap::rust_trap(&mut e, 7, 0, None), Act::Killed { id: 2 });
    assert_eq!(trap::rust_trap(&mut e, 7, 0, None), Act::Nested);
    assert!(e.tasks[2].alive);
    let mut e = board();
    assert_eq!(trap::rust_trap(&mut e, 5, 0, None), Act::Fatal);
    assert_eq!(trap::rust_trap(&mut e, 5, 0, None), Act::Nested);
    assert_eq!(trap::mcause_str(2), "illegal instruction");
    assert_eq!(trap::mcause_str(77), "unknown");
}

#[test]
fn a_tick_sets_the_timer_and_switches() {
    let mut e = board();
    e.next_at = clint::timer_init(1000);
    let at = e.next_at;
    match trap::rust_trap(&mut e, 0x8000_0007, 0, None) {
        Act::SetTimer { next } => assert!(next > at),
        other => panic!("{:?}", other),
    }
    assert_eq!(e.ticks, 1);
    assert_eq!(e.current, 1);
}

#[test]
fn the_clock_is_read_in_halves() {
    assert_eq!(clint::mtime_get(1, 2, 1), Some(0x1_0000_0002));
    assert_eq!(clint::mtime_get(1, 2, 2), None);
    assert_eq!(clint::halves(0x1_0000_0002), (2, 1));
    assert_eq!(clint::mtimecmp_set(0x3_0000_0004), (u32::MAX, 4, 3));
}

#[test]
fn lines_are_edited() {
    let mut s = Shell::new();
    for c in b"pss" {
        assert!(shell::key(&mut s, *c).line.is_none());
    }
    assert!(shell::key(&mut s, 0x7f).line.is_none());
    assert_eq!(shell::key(&mut s, b'\r').line, Some(b"ps".to_vec()));
    assert_eq!(s.len, 0);
}

#[test]
fn commands_answer() {
    let mut e = board();
    assert_eq!(say(&e, b"echo  hi there"), "hi there\n");
    assert_eq!(say(&e, b"whoami"), "task 0\n");
    assert!(say(&e, b"help").starts_with("commands:\n"));
    assert_eq!(say(&e, b"timer"), "mtime=1234 mtimecmp=5678 ticks=0\n");
    e.ticks = 1205;
    assert_eq!(say(&e, b"ticks"), "ticks=1205 uptime=12.05s\n");
    assert!(say(&e, b"ps").starts_with("id  name   alive  runs\n"));
    assert_eq!(shell::exec_line(&e, &machine(), b"poweroff").act, Do::PowerOff);
    assert_eq!(shell::exec_line(&e, &machine(), b"fault").act, Do::Fault);
    assert_eq!(shell::exec_line(&e, &machine(), b"yield").act, Do::Yield);
    assert_eq!(say(&e, b""), "");
}

#[test]
fn the_console_ends_lines_twice() {
    let mut c = Console { out: Vec::new() };
    c.write(b"a\nb");
    assert_eq!(c.out, b"a\r\nb");
    assert_eq!(uart::getc_nb(1, b'q'), Some(b'q'));
    assert_eq!(uart::getc_nb(0, b'q'), None);
}

#[test]
fn workers_work() {
    assert_eq!(worker::fib24(), 46368);
    let mut w = Worker { count: 0, last: 0 };
    let lines: usize = (0..1000u64).filter(|t| worker::worker_blink(&mut w, *t)).count();
    assert!(lines > 0);
}

#[test]
fn a_fault_is_reported_with_all_registers() {
    let mut e = Eos::new();
    task::task_init(&mut e, 1, 0x8010_0000, 0x8000_0040, 0x8000_0080, "blink");
    let out = String::from_utf8(report::fault(&e, 1, 2, 0)).unwrap();
    let lines: Vec<&str> = out.split('\n').collect();
    assert_eq!(lines[0], "");
    assert_eq!(lines[1], "[FATAL] illegal instruction (mcause=0x2 mepc=0x80000040 mtval=0x0) on task 1 \"blink\"");
    assert_eq!(lines[2], "  ra=0x80000080 sp=0x80101000 gp=0x0 tp=0x0 t0=0x0 t1=0x0 t2=0x0");
    assert_eq!(lines[3], "  s0=0x0 s1=0x0 a0=0x0 a1=0x0 a2=0x0 a3=0x0 a4=0x0 a5=0x0");
    assert_eq!(lines[4], "  a6=0x0 a7=0x0 s2=0x0 s3=0x0 s4=0x0 s5=0x0 s6=0x0 s7=0x0");
    assert_eq!(lines[5], "  s8=0x0 s9=0x0 s10=0x0 s11=0x0 t3=0x0 t4=0x0 t5=0x0 t6=0x0");
    assert_eq!(lines.len(), 7);
    assert_eq!(report::killing(1), b"[trap] killing task 1\n");
}

#[test]
fn the_board_says_what_it_does() {
    assert_eq!(report::blink(3, 601), b"[blink] count=3 tick=601\n");
    assert_eq!(report::fib(7, 46368, 300), b"[fib] iter=7 fib24=46368 tick=300\n");
    assert_eq!(report::task_exit(2, "fib"), b"[task 2 \"fib\"] exited, parking\n");
    assert_eq!(
        report::started(0x8000_0010, 0x8001_0000),
        b"[boot] mtvec=0x80000010 mscratch=0x80010000 interval=100000\n[boot] scheduler start: 3 tasks @ 100 Hz\n"
    );
    let a = Area { lo: 0x8000_0000, hi: 0x8000_1000 };
    let m = Machine { hart: 0, code: a, rodata: a, data: a, bss: a, boot_stack: a, time: 0, alarm: 0 };
    let out = String::from_utf8(report::banner(&m)).unwrap();
    assert!(out.contains("\n embed-os 0.1.0 \u{2014} RV32IMAC bare-metal, M-mode\n"));
    assert!(out.ends_with(
        "[boot] hart=0 (expect 0 on qemu virt)\n[boot] mem: text 0x80000000..0x80001000 ro 0x80000000..0x80001000 data 0x80000000..0x80001000 bss 0x80000000..0x80001000\n"
    ));
}
