//! Disk images: what is added is read back.
use muse_os::mkfs::image::{r32, Image};

#[test]
fn roundtrip() {
    let mut img = Image::new(3);
    img.add_file(2, b"hello", b"hello world");
    img.add_file(1, b"README", b"readme!");
    let big = vec![0xabu8; 3000];
    img.add_file(2, b"big", &big);
    assert!(img.check_magic());
    assert_eq!(r32(&img.data, 44), 2);
    assert_eq!(r32(&img.data, 48), 1);
    let hello_ino = img.lookup(2, b"hello").unwrap();
    let ho = Image::ino_off(hello_ino);
    assert_eq!(r32(&img.data, ho + 44), 1);
    assert_eq!(img.read_file(2, b"hello").unwrap(), b"hello world");
    assert_eq!(img.read_file(1, b"README").unwrap(), b"readme!");
    assert_eq!(img.read_file(2, b"big").unwrap(), big);
    assert!(img.read_file(2, b"nope").is_none());
    let mut names: Vec<Vec<u8>> = img.list(2).into_iter().map(|(n, _)| n).collect();
    names.sort();
    assert_eq!(names, vec![b"big".to_vec(), b"hello".to_vec()]);
    assert!(img.is_used(0));
}

#[test]
fn indirect_file() {
    let mut img = Image::new(1);
    let big = vec![0x5au8; 8 * 512 + 100];
    img.add_file(2, b"huge", &big);
    assert_eq!(img.read_file(2, b"huge").unwrap(), big);
}

#[test]
fn deep_file() {
    // Past the own blocks and the first list: 136 blocks and some more.
    let mut img = Image::new(1);
    let big: Vec<u8> = (0..300 * 512 + 7).map(|i| (i % 251) as u8).collect();
    assert!(img.fits(2, b"deep", &big));
    img.add_file(2, b"deep", &big);
    assert_eq!(img.read_file(2, b"deep").unwrap(), big);
}

#[test]
fn an_empty_image_has_a_directory_for_programs() {
    let img = Image::new(0);
    assert_eq!(img.lookup(1, b"bin"), Some(2));
    assert_eq!(img.list(1), vec![(b"bin".to_vec(), 2)]);
    assert!(img.list(2).is_empty());
    assert!(!img.fits(2, &[b'n'; 29], b""));
    assert!(!img.fits(0, b"x", b""));
    assert!(img.fits(2, b"x", b""));
}

#[test]
fn what_is_there_stays_when_more_is_added() {
    let mut img = Image::new(40);
    for k in 0..40u8 {
        img.add_file(2, &[b'f', b'a' + k], &vec![k; 700]);
    }
    for k in 0..40u8 {
        assert_eq!(img.read_file(2, &[b'f', b'a' + k]).unwrap(), vec![k; 700]);
    }
    assert_eq!(img.list(2).len(), 40);
}

#[test]
fn adding_leaves_every_name_file_and_used_block() {
    let mut img = Image::new(9);
    img.add_file(1, b"README", b"read me");
    img.add_file(2, b"sh", &vec![7u8; 5 * 512]);
    img.add_file(2, b"big", &vec![9u8; 20 * 512]);
    let names: [(u32, &[u8]); 5] = [(1, b"bin"), (1, b"README"), (2, b"sh"), (2, b"big"), (3, b"none")];
    let at: Vec<Option<u32>> = names.iter().map(|(d, n)| img.lookup(*d, n)).collect();
    let data: Vec<Option<Vec<u8>>> = names.iter().map(|(d, n)| img.read_file(*d, n)).collect();
    let used: Vec<u32> = (0..8192).filter(|b| img.is_used(*b)).collect();
    assert_eq!(at[4], None);
    for (dir, name, size) in [(1, b"other", 700), (2, b"added", 9000), (2, b"empty", 0)] {
        img.add_file(dir, name, &vec![1u8; size]);
        assert_eq!(img.read_file(dir, name).unwrap(), vec![1u8; size]);
        assert!(img.check_magic());
        for (i, (d, n)) in names.iter().enumerate() {
            assert_eq!(img.lookup(*d, n), at[i]);
            assert_eq!(img.read_file(*d, n), data[i]);
        }
        assert!(used.iter().all(|b| img.is_used(*b)));
    }
}

#[test]
fn a_directory_is_not_read_as_a_file() {
    let mut img = Image::new(2);
    img.add_file(2, b"sh", b"shell");
    assert_eq!(img.lookup(1, b"bin"), Some(2));
    assert!(img.read_file(1, b"bin").is_none());
}
