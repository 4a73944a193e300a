//! Page table entries, numbers and tokens; frames, queues and shares.
use muse_os::fs::pipe;
use muse_os::logic;
use muse_os::logic::{best_pick, vruntime, FrameMock, RunQueue};
use muse_os::mem::pagetable::{pte_new, pte_pa, vpn, PTE_R, PTE_V, PTE_W, PTE_X};

#[test]
fn sv39_pte_encode() {
    let pte = pte_new(0x8020_0000, PTE_V | PTE_R | PTE_X);
    assert_eq!(pte_pa(pte), 0x8020_0000);
    assert!(pte & PTE_V != 0);
}

#[test]
fn sv39_vpn_split() {
    assert_eq!(vpn(0x8020_0000, 2), 2);
    assert_eq!(vpn(0x10000, 0), 16);
}

#[test]
fn sv39_satp_mode() {
    let root_pa = 0x8040_0000u64;
    let satp = logic::satp_token(8, 0, root_pa >> 12);
    assert_eq!(satp, (8u64 << 60) | (root_pa >> 12));
    assert_eq!(satp >> 60, 8);
}

#[test]
fn frame_bump() {
    let mut f = FrameMock::new(0x8040_0000, 0x8040_0000 + 8192);
    assert_eq!(f.grab(), Some(0x8040_0000));
    assert_eq!(f.grab(), Some(0x8040_1000));
    assert!(f.grab().is_none());
}

#[test]
fn sched_round_robin() {
    let mut q = RunQueue::default();
    q.push(1);
    q.push(2);
    q.push(3);
    assert_eq!(q.pop(), Some(1));
    q.push(1);
    assert_eq!(q.pop(), Some(2));
    assert_eq!(q.pop(), Some(3));
    assert_eq!(q.pop(), Some(1));
}

#[test]
fn elf_magic() {
    let fake = [0x7fu8, b'E', b'L', b'F', 2, 1, 1, 0];
    assert_eq!(&fake[0..4], &[0x7f, b'E', b'L', b'F']);
    // Too short to be a program.
    assert!(muse_os::task::elf::parse(&fake).is_none());
}

#[test]
fn pipe_capacity() {
    assert_eq!(pipe::CAP, 1024);
    assert!(pipe::CAP >= 256);
}

#[test]
fn vruntime_ratio_8_to_1() {
    assert_eq!(vruntime(800, 8), 800 * 1024 / 8);
    assert_eq!(vruntime(800, 1), 800 * 1024);
    assert_eq!(vruntime(800, 1) / vruntime(800, 8), 8);
}

#[test]
fn vruntime_default_share_is_one() {
    assert_eq!(vruntime(100, 0), vruntime(100, 1));
}

#[test]
fn vruntime_min_direction() {
    assert_eq!(best_pick(&[(1, 800, 1), (2, 100, 8)]), Some(2));
    assert_eq!(best_pick(&[(1, 0, 1), (2, 0, 8)]), Some(1));
    assert_eq!(best_pick(&[(1, 800, 8), (2, 800, 8)]), Some(1));
}

#[test]
fn vruntime_starvation_free_shape() {
    assert_eq!(best_pick(&[(1, 100000, 1000), (2, 0, 1)]), Some(2));
}

#[test]
fn vruntime_saturates() {
    assert_eq!(vruntime(u64::MAX, 1), u64::MAX);
    assert_eq!(vruntime(u64::MAX, 1024), u64::MAX / 1024);
    assert_eq!(best_pick(&[]), None);
}

#[test]
fn pte_roundtrip() {
    let pte = logic::pte_new(0x80000, PTE_V | PTE_R | PTE_W);
    assert_eq!(logic::pte_ppn(pte), 0x80000);
    assert!(logic::pte_flags(pte) & PTE_V != 0);
}

#[test]
fn vpn_levels() {
    let v = logic::vpn_split(0x4000_1000);
    assert_eq!(v[0], 1);
    assert_eq!(v[1], 0);
    assert_eq!(v[2], 1);
}

#[test]
fn queue_rr() {
    let mut q = RunQueue::new();
    q.push(1);
    q.push(2);
    assert_eq!(q.len(), 2);
    assert_eq!(q.pop(), Some(1));
    assert_eq!(q.pop(), Some(2));
    assert_eq!(q.pop(), None);
}

#[test]
fn satp_sv39() {
    let s = logic::satp_token(8, 0, 0x80000);
    assert_eq!(s >> 60, 8);
    assert_eq!(s & 0xfff_ffff_ffff, 0x80000);
}
