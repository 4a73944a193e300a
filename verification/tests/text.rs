//! Requests, numbers and amounts written as text.
use muse_os::user::argv::{parse_dec, parse_mem, split_vreq, VATLEAST, VEXACT};
use muse_os::user::fmt::{fmt_dec, fmt_hex, fmt_oct, push_dec};

#[test]
fn split_shapes() {
    assert_eq!(split_vreq(b"hello"), (&b"hello"[..], None));
    assert_eq!(split_vreq(b"hello=1.0"), (&b"hello"[..], Some((&b"1.0"[..], VEXACT))));
    assert_eq!(split_vreq(b"hello>=1.0"), (&b"hello"[..], Some((&b"1.0"[..], VATLEAST))));
    assert_eq!(split_vreq(b"a>1"), (&b"a"[..], None));
    assert_eq!(split_vreq(b"a="), (&b"a"[..], Some((&b""[..], VEXACT))));
}

#[test]
fn dec_strict() {
    assert_eq!(parse_dec(b"0"), Some(0));
    assert_eq!(parse_dec(b"007"), Some(7));
    assert_eq!(parse_dec(b"100000"), Some(100000));
    assert_eq!(parse_dec(b""), None);
    assert_eq!(parse_dec(b"12a"), None);
    assert_eq!(parse_dec(b"a12"), None);
    assert_eq!(parse_dec(b" 12"), None);
    assert_eq!(parse_dec(b"99999999999999999999"), None);
}

#[test]
fn mem_frames() {
    assert_eq!(parse_mem(b"5"), Some(5));
    assert_eq!(parse_mem(b"0"), Some(0));
    assert_eq!(parse_mem(b"16M"), Some(4096));
    assert_eq!(parse_mem(b"16m"), Some(4096));
    assert_eq!(parse_mem(b"1K"), Some(1));
    assert_eq!(parse_mem(b"1G"), Some(262144));
    assert_eq!(parse_mem(b"100000"), Some(100000));
    assert_eq!(parse_mem(b""), None);
    assert_eq!(parse_mem(b"M"), None);
    assert_eq!(parse_mem(b"12KB"), None);
    assert_eq!(parse_mem(b"12X"), None);
    assert_eq!(parse_mem(b"-5"), None);
}

fn dec(v: usize) -> Vec<u8> {
    let mut b = [0u8; 20];
    let n = fmt_dec(&mut b, v);
    b[..n].to_vec()
}

#[test]
fn dec_values() {
    assert_eq!(dec(0), b"0");
    assert_eq!(dec(9), b"9");
    assert_eq!(dec(10), b"10");
    assert_eq!(dec(12345), b"12345");
    assert_eq!(dec(100000), b"100000");
    assert_eq!(dec(usize::MAX), usize::MAX.to_string().as_bytes());
}

#[test]
fn dec_saturates() {
    let mut b = [0u8; 3];
    let n = fmt_dec(&mut b, 12345);
    assert_eq!(n, 3);
    assert_eq!(&b, b"123");
    let mut b = [0u8; 8];
    b[0] = b'x';
    let n = push_dec(&mut b, 1, 42);
    assert_eq!(n, 3);
    assert_eq!(&b[..3], b"x42");
}

#[test]
fn hex_values() {
    let mut b = [0u8; 16];
    let n = fmt_hex(&mut b, 0);
    assert_eq!(&b[..n], b"0");
    let n = fmt_hex(&mut b, 255);
    assert_eq!(&b[..n], b"ff");
    let n = fmt_hex(&mut b, 0xdeadbeef);
    assert_eq!(&b[..n], b"deadbeef");
    let n = fmt_hex(&mut b, usize::MAX);
    assert_eq!(n, 16);
    assert!(b.iter().all(|&c| c == b'f'));
}

#[test]
fn oct_values() {
    let mut b = [0u8; 23];
    let n = fmt_oct(&mut b, 0);
    assert_eq!(&b[..n], b"0");
    let n = fmt_oct(&mut b, 8);
    assert_eq!(&b[..n], b"10");
    let n = fmt_oct(&mut b, 0o755);
    assert_eq!(&b[..n], b"755");
}
