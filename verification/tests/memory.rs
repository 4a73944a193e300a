//! Frames, page tables, address spaces and the heap.
use muse_os::mem::copy::clone_user;
use muse_os::mem::frame;
use muse_os::mem::frame::Mem;
use muse_os::mem::heap;
use muse_os::mem::kernel;
use muse_os::mem::kernel::Sections;
use muse_os::mem::pagetable as pt;
use muse_os::mem::space;
use muse_os::mem::teardown;
use muse_os::sys::guard;
use muse_os::sys::text;

const KERNEL_END: u64 = 0x8040_0000;

fn sections() -> Sections {
    Sections {
        stext: 0x8020_0000,
        etext: 0x8021_0123,
        srodata: 0x8022_0000,
        erodata: 0x8022_0400,
        sdata: 0x8023_0000,
        edata: 0x8023_0008,
        sbss: 0x8024_0000,
        ebss: 0x8025_0000,
    }
}

fn machine() -> (Mem, u64) {
    let mut m = frame::init(KERNEL_END);
    let kroot = kernel::init_kernel_space(&mut m, &sections()).unwrap();
    (m, kroot)
}

#[test]
fn frames_are_handed_out_in_order_and_come_back() {
    let mut m = frame::init(KERNEL_END + 1);
    let all = frame::free_frames(&m);
    assert_eq!(all, (0x8800_0000 - 0x8040_1000) / 4096);
    let a = frame::alloc_frame_cg(&mut m, 0).unwrap();
    let b = frame::alloc_frame_cg(&mut m, 0).unwrap();
    assert_eq!(a, 0x8040_1000);
    assert_eq!(b, 0x8040_2000);
    assert_eq!(frame::cg_use(&m, 0), 2);
    frame::dealloc_frame(&mut m, a);
    assert_eq!(frame::alloc_frame_cg(&mut m, 0), Some(a));
    frame::dealloc_frame(&mut m, a);
    frame::dealloc_frame(&mut m, b);
    assert_eq!(frame::free_frames(&m), all);
    assert_eq!(frame::cg_use(&m, 0), 0);
}

#[test]
fn a_group_stops_at_its_cap() {
    let mut m = frame::init(KERNEL_END);
    frame::set_cg_limit(&mut m, 3, 2);
    assert_eq!(frame::cg_lim(&m, 3), 2);
    let a = frame::alloc_frame_cg(&mut m, 3).unwrap();
    assert!(frame::alloc_frame_cg(&mut m, 3).is_some());
    assert!(frame::alloc_frame_cg(&mut m, 3).is_none());
    assert!(frame::alloc_frame_cg(&mut m, 4).is_some());
    frame::dealloc_frame(&mut m, a);
    assert!(frame::alloc_frame_cg(&mut m, 3).is_some());
}

#[test]
fn pages_map_translate_and_unmap() {
    let mut m = frame::init(KERNEL_END);
    let root = frame::alloc_frame_cg(&mut m, 0).unwrap();
    let page = frame::alloc_frame_cg(&mut m, 0).unwrap();
    assert_eq!(pt::translate(&m, root, 0x40_0123), None);
    assert!(pt::map_one(&mut m, root, 0x40_0000, page, pt::PTE_R | pt::PTE_W | pt::PTE_U, 0));
    assert_eq!(pt::translate(&m, root, 0x40_0123), Some(page + 0x123));
    assert_eq!(pt::translate(&m, root, 0x40_1000), None);
    assert_eq!(pt::unmap_page(&mut m, root, 0x40_0000), Some(page));
    assert_eq!(pt::translate(&m, root, 0x40_0123), None);
    assert_eq!(pt::unmap_page(&mut m, root, 0x40_0000), None);
}

#[test]
fn the_kernel_maps_itself_ram_and_devices() {
    let (m, kroot) = machine();
    for va in [0x8020_0000u64, 0x8765_4321, 0x1000_0000, 0x1000_7fff, 0x0c20_1004] {
        assert_eq!(pt::translate(&m, kroot, va), Some(va));
    }
    assert_eq!(pt::translate(&m, kroot, 0x1000_8000), None);
    assert_eq!(pt::translate(&m, kroot, 0x10000), None);
}

#[test]
fn a_space_is_cloned_byte_for_byte_and_torn_down_whole() {
    let (mut m, kroot) = machine();
    let free = frame::free_frames(&m);
    let a = kernel::new_user_space(&mut m, kroot, 0).unwrap();
    assert_eq!(pt::translate(&m, a, 0x8020_0000), Some(0x8020_0000));
    assert!(space::map_user(&mut m, a, 0x10ffe, b"across pages", pt::PTE_R | pt::PTE_W, 0));
    let b = kernel::new_user_space(&mut m, kroot, 0).unwrap();
    assert!(clone_user(&mut m, a, b, 0));
    assert_eq!(guard::user_range(&m, b, 0x10ffe, 12), b"across pages");
    // The copies are apart.
    space::write_byte_to(&mut m, a, 0x10ffe, b'A');
    assert_eq!(text::user_byte(&m, a, 0x10ffe), b'A');
    assert_eq!(text::user_byte(&m, b, 0x10ffe), b'a');
    assert!(guard::byte_ready(&m, a, 0x11000));
    assert!(!guard::byte_ready(&m, a, 0x12000));
    assert!(!guard::byte_ready(&m, a, 0x8020_0000));
    teardown::free_user_space(&mut m, a);
    teardown::free_user_space(&mut m, b);
    assert_eq!(frame::free_frames(&m), free);
}

#[test]
fn unmapped_ranges_give_their_frames_back() {
    let (mut m, kroot) = machine();
    let a = kernel::new_user_space(&mut m, kroot, 0).unwrap();
    assert!(space::alloc_map_user(&mut m, a, 0x20000, 0x3000, pt::PTE_R | pt::PTE_W, 0));
    assert!(guard::range_ready(&m, a, 0x20000, 0x3000));
    assert!(!guard::range_ready(&m, a, 0x20000, 0x3001));
    let free = frame::free_frames(&m);
    teardown::unmap_free_user(&mut m, a, 0x20000, 0x2000);
    assert_eq!(frame::free_frames(&m), free + 2);
    assert!(!guard::byte_ready(&m, a, 0x21fff));
    assert!(guard::byte_ready(&m, a, 0x22000));
}

#[test]
fn what_a_hart_is_told() {
    assert_eq!(pt::activate(0x8040_0000), 0x8000_0000_0008_0400);
    let c = pt::remote_flush_all(2);
    assert_eq!((c.eid, c.fid, c.a0), (0x5246_4e43, 1, 0b1011));
}

#[test]
fn the_heap_splits_and_joins() {
    let mut h = heap::init(0x8100_0000);
    let (free, largest) = heap::stats(&h);
    assert_eq!(free, largest);
    let a = h.take(100).unwrap();
    let b = h.take(1).unwrap();
    assert_eq!(a % 16, 0);
    assert!(b >= a + 100);
    assert!(heap::stats(&h).0 < free);
    h.give(a);
    h.give(b);
    assert_eq!(heap::stats(&h), (free, largest));
    assert!(h.take(u64::MAX - 64).is_none());
    // What was never handed out changes nothing.
    h.give(b);
    assert_eq!(heap::stats(&h), (free, largest));
}

/// Takes frames until `n` are left.
fn leave(m: &mut Mem, n: u64) {
    while frame::free_frames(m) > n {
        assert!(frame::alloc_frame_cg(m, 0).is_some());
    }
}

#[test]
fn the_kernel_space_takes_its_root_and_its_tables() {
    // Sixty-four tables for RAM, two for the interrupt controller, one for the
    // other devices, one above each of the two groups, and the root.
    let mut m = frame::init(KERNEL_END);
    let before = frame::free_frames(&m);
    assert!(kernel::init_kernel_space(&mut m, &sections()).is_some());
    assert_eq!(before - frame::free_frames(&m), 70);

    let mut m = frame::init(KERNEL_END);
    leave(&mut m, 70);
    assert!(kernel::init_kernel_space(&mut m, &sections()).is_some());
    assert_eq!(frame::free_frames(&m), 0);

    let mut m = frame::init(KERNEL_END);
    leave(&mut m, 69);
    assert!(kernel::init_kernel_space(&mut m, &sections()).is_none());
}
