//! The checksum of a journal record and its words.
use muse_os::logic::{jnl_crc, jnl_r32, jnl_w32};

#[test]
fn jnl_crc_binds() {
    let d = [0xabu8; 512];
    let c0 = jnl_crc(7, 100, &d);
    let mut d2 = d;
    d2[0] ^= 1;
    assert_ne!(jnl_crc(7, 100, &d2), c0);
    assert_ne!(jnl_crc(8, 100, &d), c0);
    assert_ne!(jnl_crc(7, 101, &d), c0);
    assert_eq!(jnl_crc(7, 100, &d), c0);
}

#[test]
fn jnl_record_roundtrip() {
    let mut a = [0u8; 512];
    let d = [0x42u8; 512];
    jnl_w32(&mut a, 0, 0x4a52_4e41);
    jnl_w32(&mut a, 8, 1234);
    jnl_w32(&mut a, 12, 777);
    jnl_w32(&mut a, 16, jnl_crc(1234, 777, &d));
    assert_eq!(jnl_r32(&a, 8), 1234);
    assert_eq!(jnl_crc(jnl_r32(&a, 8), jnl_r32(&a, 12), &d), jnl_r32(&a, 16));
    let mut torn = d;
    torn[511] ^= 0xff;
    assert_ne!(jnl_crc(1234, 777, &torn), jnl_r32(&a, 16));
}
