//! The disk, its journal, files in memory, and pipes.
use muse_os::fs::blk;
use muse_os::fs::dev;
use muse_os::fs::dev::{Dev, SECTOR};
use muse_os::fs::disk;
use muse_os::fs::jnl;
use muse_os::fs::pipe;
use muse_os::fs::ramfs;
use muse_os::fs::vfs;
use muse_os::mkfs::image::Image;

fn sectors(img: &Image) -> Vec<[u8; SECTOR]> {
    img.data
        .chunks(SECTOR)
        .map(|c| {
            let mut s = [0u8; SECTOR];
            s.copy_from_slice(c);
            s
        })
        .collect()
}

fn mounted() -> disk::Disk {
    let mut img = Image::new(8);
    img.add_file(2, b"hello", b"hello world");
    img.add_file(1, b"README", &vec![0x52u8; 5000]);
    let mut d = disk::new(dev::new(sectors(&img), true));
    assert!(disk::mount(&mut d));
    d
}

#[test]
fn the_kernel_reads_what_was_built() {
    let mut d = mounted();
    assert_eq!(disk::read_file(&mut d, b"/bin/hello").unwrap(), b"hello world");
    assert_eq!(disk::read_file(&mut d, b"/README").unwrap(), vec![0x52u8; 5000]);
    assert_eq!(disk::stat(&mut d, b"/README"), (1, 5000));
    assert_eq!(disk::stat(&mut d, b"/bin").0, 2);
    assert!(disk::read_file(&mut d, b"/bin/none").is_none());
    assert!(disk::read_file(&mut d, b"bin/hello").is_none());
    let mut names = disk::list_dir(&mut d, b"/");
    names.sort();
    assert_eq!(names, vec![b"README".to_vec(), b"bin/".to_vec()]);
}

#[test]
fn a_disk_without_its_name_is_not_mounted() {
    let img = Image::new(1);
    let mut s = sectors(&img);
    s[0][0] ^= 1;
    let mut d = disk::new(dev::new(s, true));
    assert!(!disk::mount(&mut d));
    assert!(!disk::is_mounted(&d));
    let mut none = disk::new(dev::new(Vec::new(), false));
    assert!(!disk::mount(&mut none));
}

#[test]
fn what_is_written_is_read_across_blocks() {
    let mut d = mounted();
    assert!(disk::create_empty(&mut d, b"/new"));
    // It is there already.
    assert!(disk::create_empty(&mut d, b"/new"));
    assert!(!disk::create_empty(&mut d, b"/none/new"));
    assert_eq!(disk::file_len(&mut d, b"/new"), Some(0));
    let data: Vec<u8> = (0..6000).map(|i| (i % 253) as u8).collect();
    assert_eq!(disk::write_at(&mut d, b"/new", 0, &data), 6000);
    assert_eq!(disk::read_file(&mut d, b"/new").unwrap(), data);
    let mut part = [0u8; 700];
    assert_eq!(disk::read_at(&mut d, b"/new", 500, &mut part), 700);
    assert_eq!(&part[..], &data[500..1200]);
    assert_eq!(disk::write_at(&mut d, b"/new", 1000, b"XYZ"), 3);
    let back = disk::read_file(&mut d, b"/new").unwrap();
    assert_eq!(&back[1000..1003], b"XYZ");
    assert_eq!(back[999], data[999]);
    assert_eq!(back[1003], data[1003]);
    // No other file changed.
    assert_eq!(disk::read_file(&mut d, b"/bin/hello").unwrap(), b"hello world");
}

#[test]
fn blocks_come_back_when_a_file_goes() {
    let mut d = mounted();
    let free = disk::free_blocks(&mut d);
    assert!(disk::create_empty(&mut d, b"/big"));
    assert_eq!(disk::write_at(&mut d, b"/big", 0, &vec![1u8; 20 * 512]), 20 * 512);
    assert!(disk::free_blocks(&mut d) < free);
    assert!(disk::unlink(&mut d, b"/big"));
    assert_eq!(disk::free_blocks(&mut d), free);
    assert!(!disk::exists_path(&mut d, b"/big"));
    assert!(!disk::unlink(&mut d, b"/big"));
    assert_eq!(disk::total_blocks(&d), 8192);
}

#[test]
fn directories_on_disk() {
    let mut d = mounted();
    assert!(disk::mkdir(&mut d, b"/sub"));
    assert!(!disk::mkdir(&mut d, b"/sub"));
    assert!(disk::create_empty(&mut d, b"/sub/file"));
    assert_eq!(disk::list_dir(&mut d, b"/sub"), vec![b"file".to_vec()]);
    assert!(disk::truncate_path(&mut d, b"/README"));
    assert_eq!(disk::file_len(&mut d, b"/README"), Some(0));
}

#[test]
fn names_come_and_go() {
    let mut d = mounted();
    let free = disk::free_blocks(&mut d);
    for name in [b"/a", b"/b", b"/c"] {
        assert!(disk::create_empty(&mut d, name));
    }
    assert_eq!(disk::write_at(&mut d, b"/a", 0, &[1u8; 1500]), 1500);
    assert_eq!(disk::write_at(&mut d, b"/b", 0, &[2u8; 700]), 700);
    assert_eq!(disk::free_blocks(&mut d), free - 5);
    // Cut: empty, where it was, its blocks back.
    assert!(disk::truncate_path(&mut d, b"/a"));
    assert_eq!(disk::read_file(&mut d, b"/a").unwrap(), b"");
    assert_eq!(disk::free_blocks(&mut d), free - 2);
    assert_eq!(disk::read_file(&mut d, b"/b").unwrap(), [2u8; 700]);
    // Removed: gone, and the others are where they were.
    assert!(disk::unlink(&mut d, b"/b"));
    assert!(!disk::exists_path(&mut d, b"/b"));
    assert_eq!(disk::free_blocks(&mut d), free);
    assert!(disk::exists_path(&mut d, b"/a"));
    assert!(disk::exists_path(&mut d, b"/c"));
    // Made again, in the place that is free: new and empty. A shorter name
    // leaves nothing of the longer one.
    assert!(disk::mkdir(&mut d, b"/longer"));
    assert!(disk::unlink(&mut d, b"/longer"));
    assert!(disk::create_empty(&mut d, b"/lo//"));
    assert_eq!(disk::file_len(&mut d, b"/lo"), Some(0));
    assert!(!disk::exists_path(&mut d, b"/longer"));
    assert!(disk::create_empty(&mut d, b"/b"));
    assert_eq!(disk::file_len(&mut d, b"/b"), Some(0));
}

#[test]
fn a_cache_serves_what_was_written() {
    let mut b = blk::new(dev::new(vec![[0u8; SECTOR]; 64], true));
    let data = [7u8; SECTOR];
    blk::write(&mut b, 5, &data);
    let mut out = [0u8; SECTOR];
    blk::read(&mut b, 5, &mut out);
    assert_eq!(out, data);
    assert_eq!(dev::take_log(&mut b.dev), vec![(5, data)]);
    // There is no such sector: nothing is read.
    blk::read(&mut b, 100, &mut out);
    assert_eq!(out, data);
    assert_eq!((b.stats.hits, b.stats.miss, b.stats.wr), (1, 1, 1));
}

fn journal() -> (jnl::Jnl, Dev) {
    let mut j = jnl::off();
    let mut d = dev::new(vec![[0u8; SECTOR]; 200], true);
    jnl::init(&mut j, &mut d, 100, 64);
    assert!(jnl::enabled(&j));
    (j, d)
}

#[test]
fn records_are_replayed_last_one_wins() {
    let (mut j, mut d) = journal();
    jnl::record(&mut j, &mut d, 3, &[1u8; SECTOR]);
    jnl::record(&mut j, &mut d, 3, &[2u8; SECTOR]);
    jnl::record(&mut j, &mut d, 4, &[9u8; SECTOR]);
    let mut out = [0u8; SECTOR];
    assert!(dev::read_block(&d, 3, &mut out));
    assert_eq!(out, [0u8; SECTOR]);
    let (n, _) = jnl::replay(&mut j, &mut d);
    assert_eq!(n, 3);
    assert!(dev::read_block(&d, 3, &mut out));
    assert_eq!(out, [2u8; SECTOR]);
    assert!(dev::read_block(&d, 4, &mut out));
    assert_eq!(out, [9u8; SECTOR]);
}

#[test]
fn a_transaction_without_its_commit_is_not_replayed() {
    let (mut j, mut d) = journal();
    jnl::begin(&mut j);
    jnl::record(&mut j, &mut d, 8, &[5u8; SECTOR]);
    let (n, _) = jnl::replay(&mut j, &mut d);
    assert_eq!(n, 0);
    let mut out = [1u8; SECTOR];
    assert!(dev::read_block(&d, 8, &mut out));
    assert_eq!(out, [0u8; SECTOR]);
}

#[test]
fn a_committed_transaction_is_replayed() {
    let (mut j, mut d) = journal();
    jnl::begin(&mut j);
    jnl::record(&mut j, &mut d, 8, &[5u8; SECTOR]);
    jnl::record(&mut j, &mut d, 9, &[6u8; SECTOR]);
    jnl::commit(&mut j, &mut d);
    jnl::replay(&mut j, &mut d);
    let mut out = [1u8; SECTOR];
    assert!(dev::read_block(&d, 8, &mut out));
    assert_eq!(out, [5u8; SECTOR]);
    assert!(dev::read_block(&d, 9, &mut out));
    assert_eq!(out, [6u8; SECTOR]);
}

#[test]
fn files_in_memory() {
    let mut f = ramfs::init();
    ramfs::write_file(&mut f, b"/etc/conf", b"abc");
    assert_eq!(ramfs::read_file(&f, b"/etc/conf").unwrap(), b"abc");
    assert_eq!(ramfs::write_at(&mut f, b"/etc/conf", 5, b"z"), 1);
    assert_eq!(ramfs::read_file(&f, b"/etc/conf").unwrap(), b"abc\0\0z");
    assert_eq!(ramfs::file_len(&f, b"/etc/conf"), Some(6));
    assert!(ramfs::truncate(&mut f, b"/etc/conf"));
    assert_eq!(ramfs::file_len(&f, b"/etc/conf"), Some(0));
    assert!(ramfs::unlink(&mut f, b"/etc/conf"));
    assert!(!ramfs::exists_path(&f, b"/etc/conf"));
    assert_eq!(ramfs::norm(b"x", b"/home"), b"/home/x");
}

#[test]
fn the_disk_is_used_where_there_is_one() {
    let mut img = Image::new(2);
    img.add_file(2, b"hello", b"on disk");
    let mut s = vfs::new(disk::new(dev::new(sectors(&img), true)), Vec::new());
    vfs::init(&mut s, b"");
    assert!(vfs::use_disk(&s));
    assert_eq!(vfs::read_file(&mut s, b"/bin/hello").unwrap(), b"on disk");
    vfs::write_file(&mut s, b"/note", b"kept");
    assert_eq!(vfs::read_file(&mut s, b"/note").unwrap(), b"kept");
    let (total, free) = vfs::blocks_stat(&mut s);
    assert_eq!(total, 8192);
    assert!(free < total);
    let mut m = vfs::new(disk::new(dev::new(Vec::new(), false)), Vec::new());
    vfs::init(&mut m, b"read me");
    assert!(!vfs::use_disk(&m));
    assert!(vfs::exists_path(&mut m, b"/bin"));
}

#[test]
fn a_pipe_keeps_order_and_its_size() {
    let mut p = pipe::init();
    let (r, w) = pipe::create(&mut p);
    assert_eq!(r, w);
    assert_eq!(pipe::write(&mut p, r, &vec![1u8; 1000]), 1000);
    assert_eq!(pipe::write(&mut p, r, &vec![2u8; 100]), 24);
    assert_eq!(pipe::avail(&p, r), 1024);
    let mut buf = [0u8; 1010];
    assert_eq!(pipe::read(&mut p, r, &mut buf), 1010);
    assert_eq!(&buf[998..1002], &[1, 1, 2, 2]);
    assert_eq!(pipe::read(&mut p, r, &mut buf), 14);
    assert_eq!(pipe::read(&mut p, r, &mut buf), 0);
}

#[test]
fn a_name_that_went_makes_room_for_another() {
    let mut d = mounted();
    assert!(disk::create_empty(&mut d, b"/a"));
    assert_eq!(disk::write_at(&mut d, b"/a", 0, b"five!"), 5);
    assert!(disk::unlink(&mut d, b"/a"));
    assert!(!disk::exists_path(&mut d, b"/b"));
    assert!(disk::create_empty(&mut d, b"/b"));
    assert_eq!(disk::file_len(&mut d, b"/b"), Some(0));
    assert_eq!(disk::read_file(&mut d, b"/b"), Some(Vec::new()));
    // The same name works as well, with every inode taken.
    let mut img = Image::new(0);
    let mut taken = 0;
    while img.fits(1, &[b'x', b'0' + taken], b"") {
        img.add_file(1, &[b'x', b'0' + taken], b"old");
        taken += 1;
    }
    let mut d = disk::new(dev::new(sectors(&img), true));
    assert!(disk::mount(&mut d));
    while disk::create_empty(&mut d, &[b'/', b'y', b'0' + taken]) {
        taken += 1;
    }
    assert!(!disk::create_empty(&mut d, b"/z"));
    assert!(disk::unlink(&mut d, b"/x0"));
    assert!(disk::create_empty(&mut d, b"/x0"));
    assert_eq!(disk::read_file(&mut d, b"/x0"), Some(Vec::new()));
    assert_eq!(disk::read_file(&mut d, b"/x1").unwrap(), b"old");
}

#[test]
fn a_disk_that_is_left_is_marked_clean() {
    let mut img = Image::new(2);
    img.add_file(2, b"hello", b"on disk");
    let mut s = vfs::new(disk::new(dev::new(sectors(&img), true)), Vec::new());
    vfs::init(&mut s, b"");
    disk::set_dirty(&mut s.disk, true);
    let mut before = [0u8; SECTOR];
    assert!(dev::read_block(&s.disk.blk.dev, 0, &mut before));
    assert_eq!(&before[48..52], &[1, 0, 0, 0]);
    assert!(vfs::leave(&mut s));
    let mut after = [0u8; SECTOR];
    assert!(dev::read_block(&s.disk.blk.dev, 0, &mut after));
    assert_eq!(&after[48..52], &[0, 0, 0, 0]);
    assert_eq!((&after[..48], &after[52..]), (&before[..48], &before[52..]));
    assert_eq!(vfs::read_file(&mut s, b"/bin/hello").unwrap(), b"on disk");
    let mut m = vfs::new(disk::new(dev::new(Vec::new(), false)), Vec::new());
    vfs::init(&mut m, b"");
    assert!(!vfs::leave(&mut m));
}

#[test]
fn a_second_replay_answers_as_the_first() {
    let (mut j, mut d) = journal();
    jnl::record(&mut j, &mut d, 3, &[1u8; SECTOR]);
    jnl::begin(&mut j);
    jnl::record(&mut j, &mut d, 4, &[2u8; SECTOR]);
    jnl::commit(&mut j, &mut d);
    let first = jnl::replay(&mut j, &mut d);
    assert!(first.0 >= 2);
    let mut out = [0u8; SECTOR];
    assert_eq!(jnl::replay(&mut j, &mut d), first);
    assert!(dev::read_block(&d, 3, &mut out));
    assert_eq!(out, [1u8; SECTOR]);
    assert!(dev::read_block(&d, 4, &mut out));
    assert_eq!(out, [2u8; SECTOR]);
    // A journal that was reset has nothing to replay.
    jnl::reset(&mut j, &mut d);
    assert_eq!(jnl::replay(&mut j, &mut d), (0, 0));
}

#[test]
fn a_file_that_went_makes_way_for_one_elsewhere() {
    let mut d = mounted();
    assert!(disk::mkdir(&mut d, b"/tmp"));
    assert!(disk::unlink(&mut d, b"/bin/hello"));
    assert!(disk::create_empty(&mut d, b"/tmp/new"));
    assert_eq!(disk::read_file(&mut d, b"/tmp/new"), Some(Vec::new()));
    assert!(!disk::exists_path(&mut d, b"/bin/hello"));
    assert!(disk::exists_path(&mut d, b"/README"));
    // A directory that is not there has no room.
    assert!(!disk::create_empty(&mut d, b"/none/new"));
}

#[test]
fn a_disk_is_mounted_wherever_its_bitmap_is_said_to_be() {
    let img = Image::new(1);
    let mut s = sectors(&img);
    s[0][16..20].copy_from_slice(&(u32::MAX - 1).to_le_bytes());
    let mut d = disk::new(dev::new(s, true));
    assert!(disk::mount(&mut d));
    assert_eq!(disk::stat(&mut d, b"/bin").0, 2);
    // Places are known even if the root is missing.
    let mut s = sectors(&img);
    s[0][40..44].copy_from_slice(&77u32.to_le_bytes());
    let mut d = disk::new(dev::new(s, true));
    assert!(!disk::mount(&mut d));
    assert_eq!((d.geo.root, d.geo.nblocks), (77, 8192));
    // As many inodes as there are numbers: the last is far behind the disk.
    let mut s = sectors(&img);
    s[0][32..36].copy_from_slice(&u32::MAX.to_le_bytes());
    let mut d = disk::new(dev::new(s, true));
    assert!(disk::mount(&mut d));
    assert!(disk::create_empty(&mut d, b"/new"));
}

#[test]
fn a_name_that_is_no_text_is_shown_with_marks() {
    let mut d = mounted();
    assert!(disk::mkdir(&mut d, b"/sub"));
    assert!(disk::create_empty(&mut d, b"/sub/a\xffb"));
    assert!(disk::create_empty(&mut d, "/sub/gr\u{fc}n".as_bytes()));
    assert_eq!(
        disk::list_dir(&mut d, b"/sub"),
        vec!["a\u{fffd}b".as_bytes().to_vec(), "gr\u{fc}n".as_bytes().to_vec()]
    );
    assert!(disk::exists_path(&mut d, b"/sub/a\xffb"));
}

#[test]
fn the_cache_counts_what_goes_through_it() {
    let mut d = disk::new(dev::new(Vec::new(), false));
    assert!(!disk::mount(&mut d));
    // One sector was asked for, and the device has none.
    assert_eq!((d.blk.stats.hits, d.blk.stats.miss, d.blk.stats.rd, d.blk.stats.wr), (0, 1, 1, 0));
    let mut d = mounted();
    let (wr, sent) = (d.blk.stats.wr, d.blk.dev.log.len() as u64);
    assert!(disk::create_empty(&mut d, b"/counted"));
    assert_eq!(disk::write_at(&mut d, b"/counted", 0, &[1u8; 1500]), 1500);
    assert_eq!(d.blk.stats.wr - wr, d.blk.dev.log.len() as u64 - sent);
    let hits = d.blk.stats.hits;
    assert_eq!(disk::read_file(&mut d, b"/counted").unwrap(), [1u8; 1500]);
    assert!(d.blk.stats.hits > hits);
}
