//! What user programs compute.
use muse_os::user::calls;
use muse_os::user::calls::Line;
use muse_os::user::demo;
use muse_os::user::dns;
use muse_os::user::dns::Lookup;
use muse_os::user::web;

fn args(v: &[&str]) -> Vec<Vec<u8>> {
    v.iter().map(|s| s.as_bytes().to_vec()).collect()
}

#[test]
fn calls_carry_their_numbers() {
    let c = calls::write(1, 0x1000, 5);
    assert_eq!(c.id, 6);
    assert_eq!(calls::fork().id, 1);
    assert_eq!(calls::print(7, 8).id, calls::write(1, 7, 8).id);
    assert_eq!(calls::read_line(0, 8, 1, b'x'), Line::More { at: 1 });
    assert_eq!(calls::read_line(3, 8, 1, b'\n'), Line::Done { len: 4 });
    assert_eq!(calls::read_line(3, 8, 0, 0), Line::Done { len: 3 });
}

#[test]
fn addresses_are_strict() {
    assert_eq!(web::parse_ip(b"10.0.2.15"), Some(0x0a00_020f));
    assert_eq!(web::parse_ip(b"255.255.255.255"), Some(0xffff_ffff));
    assert_eq!(web::parse_ip(b"256.0.0.1"), None);
    assert_eq!(web::parse_ip(b"1.2.3"), None);
    assert_eq!(web::parse_ip(b"1..2.3"), None);
    assert_eq!(web::parse_ip(b""), None);
}

#[test]
fn pages_are_asked_for() {
    let mut b = [0u8; 128];
    let n = web::http_req(&mut b, b"example.org", b"/a");
    assert_eq!(&b[..n], b"GET /a HTTP/1.0\r\nHost: example.org\r\nConnection: close\r\n\r\n");
    let mut small = [0u8; 10];
    assert_eq!(web::http_req(&mut small, b"example.org", b"/a"), 0);
    assert_eq!(web::http_split(b"HTTP/1.0 404 Not Found\r\n\r\nbody"), (404, 26));
    assert_eq!(web::http_split(b"HTTP/1.0 200 OK\r\n"), (0, 0));
}

#[test]
fn names_are_looked_up() {
    let q = dns::build_query(b"a.bc.").unwrap();
    assert_eq!(&q[12..], &[1, b'a', 2, b'b', b'c', 0, 0, 1, 0, 1]);
    // The question, and an answer that points back to its name.
    let mut p = q.clone();
    p[2] = 0x81;
    p[3] = 0x80;
    p[7] = 1;
    p.extend_from_slice(&[0xc0, 12, 0, 1, 0, 1, 0, 0, 0, 60, 0, 4, 93, 184, 216, 34]);
    assert_eq!(dns::dns_parse_reply(&p), Some(0x5db8_d822));
    assert_eq!(dns::dns_parse_reply(&p[..p.len() - 1]), None);
    let l = dns::dns_resolve();
    assert_eq!(l, Lookup::Ask { attempt: 0, tries: 0 });
    let l = dns::on_send(l, q.len() as i64, q.len());
    assert!(matches!(l, Lookup::Hear { .. }));
    assert_eq!(dns::on_recv(l, p.len() as i64, &p), Lookup::Found { ip: 0x5db8_d822 });
}

#[test]
fn strings_of_a_start() {
    let v = vec![b"prog\0junk".to_vec(), vec![b'x'; 300]];
    assert_eq!(demo::argv_str(&v, 0).unwrap(), b"prog");
    assert_eq!(demo::argv_str(&v, 1).unwrap().len(), 256);
    assert!(demo::argv_str(&v, 2).is_none());
    assert_eq!(demo::env_count(&v), 2);
    assert_eq!(demo::env_str(&v, 1).unwrap().len(), 128);
    assert!(demo::env_str(&vec![Vec::new(); 17], 0).is_none());
}

#[test]
fn small_programs() {
    assert_eq!(demo::fortune(&args(&["fortune", "a", "b"])), b"fortune-sez a b\n");
    assert_eq!(demo::fortune(&args(&["fortune"])), b"fortune-sez\n");
    assert_eq!(demo::repeat(&args(&["repeat", "2", "hey"])), (b"1 hey\n2 hey\n".to_vec(), 0));
    assert_eq!(demo::repeat(&args(&["repeat", "2"])), (b"usage: repeat <n> <word>\n".to_vec(), 1));
    assert_eq!(demo::repeat(&args(&["repeat", "x", "hey"])), (b"repeat: bad count\n".to_vec(), 1));
    assert_eq!(demo::repeat(&args(&["repeat", "1001", "hey"])), (b"repeat: bad count\n".to_vec(), 1));
    let long = "w".repeat(200);
    let (out, _) = demo::repeat(&args(&["repeat", "1", &long]));
    assert_eq!(out.len(), 96);
}
