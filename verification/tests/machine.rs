//! Devices, traps and starting up.
use muse_os::hw::plic;
use muse_os::hw::plic::Irq;
use muse_os::hw::sbi;
use muse_os::hw::timer;
use muse_os::hw::timer::Timer;
use muse_os::hw::uart;
use muse_os::hw::uart::{Drain, Put, Why};
use muse_os::hw::virtio;
use muse_os::hw::virtio::{Setup, Test, TestStep, Wait};
use muse_os::fs::dev;
use muse_os::fs::dev::Dev;
use muse_os::mem::frame as frames;
use muse_os::net::state::NetState;
use muse_os::task::sched::Next;
use muse_os::task::state::Sched;
use muse_os::trap::boot;
use muse_os::trap::boot::Verdict;
use muse_os::trap::frame;
use muse_os::trap::frame::TrapFrame;
use muse_os::trap::handler;
use muse_os::trap::handler::{Act, Cause, Kind, Traps};

#[test]
fn calls_to_the_firmware() {
    let c = sbi::console_putchar(b'x');
    assert_eq!((c.eid, c.a0), (1, 120));
    let c = sbi::hart_start(2, 0x8020_0000, 7);
    assert_eq!((c.eid, c.fid, c.a0, c.a1, c.a2), (0x48534d, 0, 2, 0x8020_0000, 7));
    assert_eq!(sbi::shutdown().eid, 8);
    assert_eq!(timer::set_next(1_000).a0, 101_000);
    assert_eq!(timer::freq(), 10_000_000);
}

#[test]
fn bytes_leave_in_order() {
    let mut u = uart::init();
    assert_eq!(uart::putchar(&mut u, b'a', true), Put::Wait { byte: b'a' });
    uart::tx_enable(&mut u);
    assert_eq!(uart::putchar(&mut u, b'b', false), Put::Arm { first: None });
    assert_eq!(uart::putchar(&mut u, b'c', true), Put::Arm { first: Some(b'b') });
    assert_eq!(uart::tx_drain(&mut u, 0), Drain::Busy);
    assert_eq!(uart::tx_drain(&mut u, 0x20), Drain::Send { byte: b'c' });
    assert_eq!(uart::tx_drain(&mut u, 0x20), Drain::Disarm);
}

#[test]
fn keys_are_kept_and_the_interrupt_key_kills() {
    let mut u = uart::init();
    assert!(!uart::rx_byte(&mut u, b'k'));
    assert!(uart::rx_byte(&mut u, 3));
    assert_eq!(uart::pop(&mut u), Some(b'k'));
    assert_eq!(uart::getchar(&mut u, Some(b'd')), Some(b'd'));
    assert_eq!(uart::getchar(&mut u, None), None);
    assert_eq!(uart::on_irq(0x04, 0), Why::Rx);
    assert_eq!(uart::on_irq(0x02, 0), Why::Tx);
    assert_eq!(uart::on_irq(0x06, 0), Why::Line);
    assert_eq!(uart::on_irq(0x01, 0), Why::Done);
}

#[test]
fn interrupts_find_who_serves_them() {
    assert_eq!(plic::route(0), Irq::Nothing);
    assert_eq!(plic::route(10), Irq::Uart);
    assert_eq!(plic::route(1), Irq::Disk);
    assert_eq!(plic::route(3), Irq::Net);
    assert_eq!(plic::route(60), Irq::Other);
    assert_eq!(plic::claim(0), 0x0c20_1004);
    assert_eq!(plic::complete(1, 10).addr, 0x0c20_3004);
    assert!(!plic::init(0).is_empty());
}

#[test]
fn a_request_to_the_disk() {
    let mut m = frames::init(0x8040_0000);
    let mut v = virtio::absent();
    let seen = virtio::Seen { magic: 0x7472_6976, ver: 1, devid: 2, status: 8, qmax: 1024, cap_lo: 8192, cap_hi: 0 };
    assert_eq!(virtio::init(&mut v, &mut m, &virtio::Seen { devid: 1, ..seen }), Setup::NoDevice);
    assert_eq!(virtio::init(&mut v, &mut m, &virtio::Seen { status: 0, ..seen }), Setup::Refused);
    assert_eq!(virtio::init(&mut v, &mut m, &virtio::Seen { qmax: 0, ..seen }), Setup::NoQueue);
    assert_eq!(virtio::init(&mut v, &mut m, &seen), Setup::Ready { q: 8 });
    assert_eq!(v.ncap, 8192);
    let r = virtio::offer(&mut v, true, 0x0102, 0x1000, 0x2000, 0x3000);
    assert_eq!(r.header, [1, 0, 0, 0, 0, 0, 0, 0, 2, 1, 0, 0, 0, 0, 0, 0]);
    assert_eq!(r.chain[1].flags, 1);
    assert_eq!(r.chain[2].flags, 2);
    assert_eq!(virtio::look(&v, 0, 10, 20, 1), Wait::Again);
    assert_eq!(virtio::look(&v, 0, 20, 20, 1), Wait::TimedOut);
    assert_eq!(virtio::look(&v, 1, 10, 20, 1), Wait::Used);
    assert!(virtio::finish(&mut v, 0, 0));
    assert!(!virtio::finish(&mut v, 0, 1));
}

/// Runs the test on a device whose answer number `fails` fails; `lies` makes
/// it read back something else than was written.
fn tested(d: &mut Dev, fails: Option<usize>, lies: bool) -> Test {
    let (mut t, mut next) = virtio::selftest(d.secs.len() as u64).unwrap();
    let mut asked = 0;
    loop {
        let mut b = [0u8; 512];
        let good = fails != Some(asked);
        let ok = match next {
            TestStep::Read { lba } => good && dev::read_block(d, lba, &mut b),
            TestStep::Write { lba, data } => good && dev::write_block(d, lba, &data),
            TestStep::Done { r } => return r,
        };
        if lies && asked == 2 {
            b[511] ^= 1;
        }
        asked += 1;
        next = virtio::selftest_step(&mut t, ok, &b);
    }
}

#[test]
fn the_disk_is_tested_on_its_last_sector() {
    let mut d = dev::new(vec![[3u8; 512]; 20], true);
    assert_eq!(tested(&mut d, None, false), Test::Pass);
    assert_eq!(d.secs[19], [3u8; 512]);
    let log = dev::take_log(&mut d);
    assert_eq!(log.len(), 2);
    assert_eq!((log[0].0, log[0].1[0], log[0].1[1], log[0].1[0xa5], log[0].1[256]), (19, 0xa5, 0xa4, 0, 0xa5));
    assert_eq!(log[1], (19, [3u8; 512]));
    let end = |fails, lies| tested(&mut dev::new(vec![[3u8; 512]; 20], true), fails, lies);
    assert_eq!(end(Some(0), false), Test::ReadFail);
    assert_eq!(end(Some(1), false), Test::WriteFail);
    assert_eq!(end(Some(2), false), Test::VerifyFail);
    assert_eq!(end(None, true), Test::VerifyFail);
    assert_eq!(end(Some(3), false), Test::RestoreFail);
    assert_eq!(tested(&mut dev::new(vec![[3u8; 512]; 20], false), None, false), Test::ReadFail);
    // A small device is left alone.
    assert!(virtio::selftest(16).is_none());
    assert!(virtio::selftest(17).is_some());
}

#[test]
fn trap_stacks_and_frames() {
    let base = 0x8030_0000;
    assert_eq!(frame::trap_stack_top_hart(base, 1), base + 2 * 16384);
    assert_eq!(frame::reaffirm_hartid(base, base + 16384 + 100), 1);
    let mut t = TrapFrame::empty();
    t.x[17] = 5;
    t.x[11] = 77;
    assert_eq!(t.syscall_id(), 5);
    assert_eq!(t.arg(1), 77);
    t.set_ret(9);
    assert_eq!(t.x[10], 9);
}

fn traps() -> Traps {
    Traps { s: Sched::new(), n: NetState::new([0; 6]), net_ready: false, t: Timer::new(), soft: [false; 4] }
}

fn cause(scause: u64, sstatus: u64) -> Cause {
    Cause { scause, sstatus, sepc: 0x10000, idle_lo: 0x8020_0000, idle_hi: 0x8020_0008 }
}

#[test]
fn causes_are_told_apart() {
    assert_eq!(handler::classify(8), Kind::Call);
    assert_eq!(handler::classify(13), Kind::Fault);
    assert_eq!(handler::classify((1 << 63) | 5), Kind::Clock);
    assert_eq!(handler::classify((1 << 63) | 9), Kind::External);
    assert_eq!(handler::classify((1 << 63) | 1), Kind::Soft);
}

#[test]
fn traps_are_acted_on() {
    let mut t = traps();
    let mut f = TrapFrame::empty();
    f.sepc = 0x10000;
    assert_eq!(handler::rust_trap_handler(&mut t, &mut f, 0, &cause(8, 0), 0), Act::Call);
    assert_eq!(f.sepc, 0x10004);
    assert_eq!(handler::rust_trap_handler(&mut t, &mut f, 0, &cause(8, 0x100), 0), Act::Park);
    match handler::rust_trap_handler(&mut t, &mut f, 0, &cause((1 << 63) | 5, 0), 500) {
        Act::Clock { arm, kick } => {
            assert_eq!(arm.a0, 100_500);
            assert!(!kick);
        }
        other => panic!("{:?}", other),
    }
    assert_eq!(timer::ticks(&t.t), 1);
    // A fault ends the process; nobody is left to run.
    match handler::rust_trap_handler(&mut t, &mut f, 0, &cause(13, 0), 0) {
        Act::Exit { code, next } => assert_eq!((code, next), (-2, Next::Idle)),
        other => panic!("{:?}", other),
    }
    assert!(handler::trap_end(&mut t, 0).is_none());
    assert!(handler::poll_soft_ack(&mut t, 2, 2));
    assert!(handler::soft_acked(&t, 2));
    assert!(!handler::poll_soft_ack(&mut t, 1, 0));
}

#[test]
fn harts_are_started_and_answer() {
    let mut b = boot::begin(0);
    assert!(!boot::to_start(&b, 0));
    assert!(boot::to_start(&b, 1));
    boot::on_start(&mut b, 1, 0);
    boot::on_start(&mut b, 2, -3);
    assert!(boot::sending(&b, 0, boot::send_deadline(0)));
    boot::on_sent(&mut b, 1, 0);
    assert!(!boot::sending(&b, 0, boot::send_deadline(0)));
    let d = boot::ack_deadline(0);
    assert_eq!(boot::verdict(&b, &[false; 4], 0, d), Verdict::Again);
    assert_eq!(boot::verdict(&b, &[false; 4], d, d), Verdict::Fail);
    assert_eq!(boot::verdict(&b, &[false, true, false, false], d, d), Verdict::Pass);
}

#[test]
fn sleepers_wake_in_time() {
    let mut t = Timer::new();
    let at = timer::sleep_ticks(&t, 2);
    assert!(!timer::slept(&t, at));
    timer::tick(&mut t);
    timer::tick(&mut t);
    assert!(timer::slept(&t, at));
}

#[test]
fn the_end_of_input_is_seen_once() {
    let mut u = uart::init();
    assert!(!uart::take_eof(&mut u));
    uart::rx_byte(&mut u, 4);
    assert!(uart::take_eof(&mut u));
    assert!(!uart::take_eof(&mut u));
}
