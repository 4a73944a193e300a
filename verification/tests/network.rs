//! Frames, sockets and connections.
use muse_os::net::sock;
use muse_os::net::state::{NetState, CLOSE_TIMEOUT};
use muse_os::net::tcp;
use muse_os::net::tcp::{TState, F_ACK, F_FINACK, F_SYN};
use muse_os::net::wire;
use muse_os::net::wire::{GUEST_IP, GW_IP};

const MAC: [u8; 6] = [2, 0, 0, 0, 0, 1];
const GW: [u8; 6] = [2, 0, 0, 0, 0, 2];
const PEER: u32 = 0x0a00_0202;

fn up() -> NetState {
    let mut n = NetState::new(MAC);
    for _ in 0..64 {
        n.link.verdicts.push_back(true);
    }
    // The gateway's answer.
    let mut f = wire::eth_build(&MAC, &GW, 0x0806);
    wire::push_be16(&mut f, 1);
    wire::push_be16(&mut f, 0x0800);
    f.push(6);
    f.push(4);
    wire::push_be16(&mut f, 2);
    wire::push_all(&mut f, &GW);
    wire::push_be32(&mut f, GW_IP);
    wire::push_all(&mut f, &MAC);
    wire::push_be32(&mut f, GUEST_IP);
    sock::parse_frame(&mut n, &f, 1);
    assert!(n.arp_ok);
    assert_eq!(n.gw_mac, GW);
    n
}

/// A segment of the peer to the guest.
fn segment(sport: u16, dport: u16, seq: u32, ack: u32, flags: u8, data: &[u8]) -> Vec<u8> {
    let mut t = Vec::new();
    for ck in 0..2 {
        let c = if ck == 0 { 0 } else { wire::tcp_cksum(PEER, GUEST_IP, &t) };
        t = Vec::new();
        wire::push_be16(&mut t, sport);
        wire::push_be16(&mut t, dport);
        wire::push_be32(&mut t, seq);
        wire::push_be32(&mut t, ack);
        t.push(0x50);
        t.push(flags);
        wire::push_be16(&mut t, 8192);
        wire::push_be16(&mut t, c);
        wire::push_be16(&mut t, 0);
        wire::push_all(&mut t, data);
    }
    let mut f = wire::eth_build(&MAC, &GW, 0x0800);
    let len = 20 + t.len() as u16;
    let mut h = vec![0x45, 0];
    wire::push_be16(&mut h, len);
    wire::push_all(&mut h, &[0, 0, 0, 0, 64, 6, 0, 0]);
    wire::push_be32(&mut h, PEER);
    wire::push_be32(&mut h, GUEST_IP);
    let c = wire::ip_cksum(&h);
    h[10] = (c >> 8) as u8;
    h[11] = c as u8;
    wire::push_all(&mut f, &h);
    wire::push_all(&mut f, &t);
    f
}

/// Sequence number, acknowledgement, flags and data of the last frame sent.
fn last(n: &NetState) -> (u32, u32, u8, Vec<u8>) {
    let f = n.link.sent.last().unwrap();
    (wire::be32(f, 38), wire::be32(f, 42), f[47], f[54..].to_vec())
}

#[test]
fn checksums() {
    // A header with its checksum in place sums to zero.
    let h = [0x45u8, 0, 0, 0x73, 0, 0, 0x40, 0, 0x40, 0x11, 0xb8, 0x61, 0xc0, 0xa8, 0, 1, 0xc0, 0xa8, 0, 0xc7];
    assert_eq!(wire::ip_cksum(&h), 0);
    let mut z = h;
    z[10] = 0;
    z[11] = 0;
    assert_eq!(wire::ip_cksum(&z), 0xb861);
    let f = wire::build_tcp_frame(&GW, &MAC, PEER, 80, 49152, 7, 9, F_ACK, b"abc");
    assert_eq!(wire::tcp_cksum(GUEST_IP, PEER, &f[34..]), 0);
    // So does whatever else carries its checksum, of odd length too.
    let mut s = vec![0xabu8; 37];
    s[16] = 0;
    s[17] = 0;
    let c = wire::tcp_cksum(1, 2, &s);
    s[16] = (c >> 8) as u8;
    s[17] = c as u8;
    assert_eq!(wire::tcp_cksum(1, 2, &s), 0);
    s[36] ^= 1;
    assert_ne!(wire::tcp_cksum(1, 2, &s), 0);
}

#[test]
fn a_server_accepts_echoes_and_closes() {
    let mut n = up();
    let l = sock::sock_open_kind(&mut n, 1).unwrap();
    assert!(sock::sock_bind(&mut n, l, 7));
    assert!(sock::sock_listen(&mut n, l));
    assert!(sock::sock_accept(&n, l).is_none());
    sock::parse_frame(&mut n, &segment(5000, 7, 100, 0, F_SYN, b""), 2);
    let (seq, ack, flags, _) = last(&n);
    assert_eq!((ack, flags), (101, 18));
    sock::parse_frame(&mut n, &segment(5000, 7, 101, seq.wrapping_add(1), F_ACK, b""), 3);
    let c = sock::sock_accept(&n, l).unwrap();
    sock::sock_accept_commit(&mut n, c);
    sock::parse_frame(&mut n, &segment(5000, 7, 101, seq.wrapping_add(1), F_ACK, b"ping"), 4);
    let mut buf = [0u8; 16];
    assert_eq!(sock::sock_recv(&mut n, c, &mut buf), 4);
    assert_eq!(&buf[..4], b"ping");
    assert_eq!(sock::sock_send(&mut n, c, b"pong", 5), 4);
    let (s2, a2, _, data) = last(&n);
    assert_eq!((s2, a2), (seq.wrapping_add(1), 105));
    assert_eq!(data, b"pong");
    // Not acknowledged: sent again later, the same bytes.
    let sent = n.link.sent.len();
    assert!(!n.link.sent.is_empty());
    sock::tick(&mut n, true, 5 + 20 + 1);
    assert_eq!(n.link.sent.len(), sent + 1);
    assert_eq!(last(&n).3, b"pong");
    sock::parse_frame(&mut n, &segment(5000, 7, 105, s2.wrapping_add(4), F_FINACK, b""), 40);
    assert_eq!(sock::sock_recv(&mut n, c, &mut buf), 0);
}

#[test]
fn a_broken_segment_changes_nothing() {
    let mut n = up();
    let l = sock::sock_open_kind(&mut n, 1).unwrap();
    assert!(sock::sock_bind(&mut n, l, 7));
    assert!(sock::sock_listen(&mut n, l));
    let mut f = segment(5000, 7, 100, 0, F_SYN, b"");
    let k = f.len() - 1;
    f[k] ^= 1;
    let sent = n.link.sent.len();
    sock::parse_frame(&mut n, &f, 2);
    assert_eq!(n.link.sent.len(), sent);
    assert!(sock::sock_accept(&n, l).is_none());
}

#[test]
fn ports_are_not_shared() {
    let mut n = up();
    let a = sock::sock_open_kind(&mut n, 1).unwrap();
    let b = sock::sock_open_kind(&mut n, 1).unwrap();
    assert!(sock::sock_bind(&mut n, a, 80));
    assert!(!sock::sock_bind(&mut n, b, 80));
    assert_ne!(n.socks[a].lport, n.socks[b].lport);
    for _ in 2..8 {
        assert!(sock::sock_open_kind(&mut n, 0).is_some());
    }
    assert!(sock::sock_open_kind(&mut n, 0).is_none());
}

#[test]
fn datagrams_arrive_at_their_port() {
    let mut n = up();
    let u = sock::sock_open_kind(&mut n, 0).unwrap();
    assert!(sock::sock_connect(&mut n, u, PEER, 53));
    assert_eq!(sock::sock_send(&mut n, u, b"query", 3), 5);
    let f = n.link.sent.last().unwrap().clone();
    assert_eq!(&f[42..], b"query");
    assert_eq!(wire::be16(&f, 36), 53);
    // The answer: addresses and ports exchanged.
    let port = wire::be16(&f, 34);
    let mut a = wire::eth_build(&MAC, &GW, 0x0800);
    let mut h = vec![0x45, 0];
    wire::push_be16(&mut h, 28 + 6);
    wire::push_all(&mut h, &[0, 0, 0, 0, 64, 17, 0, 0]);
    wire::push_be32(&mut h, PEER);
    wire::push_be32(&mut h, GUEST_IP);
    wire::push_all(&mut a, &h);
    wire::push_be16(&mut a, 53);
    wire::push_be16(&mut a, port);
    wire::push_be16(&mut a, 8 + 6);
    wire::push_be16(&mut a, 0);
    wire::push_all(&mut a, b"answer");
    sock::parse_frame(&mut n, &a, 4);
    let mut buf = [0u8; 32];
    assert_eq!(sock::sock_recv(&mut n, u, &mut buf), 6);
    assert_eq!(&buf[..6], b"answer");
}

#[test]
fn a_socket_that_is_closed_is_free() {
    let mut n = up();
    let a = sock::sock_open_kind(&mut n, 0).unwrap();
    sock::sock_close(&mut n, a, 5);
    assert_eq!(sock::sock_open_kind(&mut n, 0), Some(a));
    sock::sock_close(&mut n, 99, 5);
}

/// A connection that was accepted: its socket, and the number its next byte
/// is sent with.
fn connected(n: &mut NetState) -> (usize, u32) {
    let l = sock::sock_open_kind(n, 1).unwrap();
    assert!(sock::sock_bind(n, l, 7));
    assert!(sock::sock_listen(n, l));
    sock::parse_frame(n, &segment(5000, 7, 100, 0, F_SYN, b""), 2);
    let seq = last(n).0.wrapping_add(1);
    sock::parse_frame(n, &segment(5000, 7, 101, seq, F_ACK, b""), 3);
    let c = sock::sock_accept(n, l).unwrap();
    sock::sock_accept_commit(n, c);
    assert_eq!(n.socks[c].tcp.state, TState::Est);
    (c, seq)
}

#[test]
fn the_answer_to_the_last_fin_frees_the_socket() {
    let mut n = up();
    let (c, seq) = connected(&mut n);
    sock::parse_frame(&mut n, &segment(5000, 7, 101, seq, F_FINACK, b""), 4);
    assert_eq!(n.socks[c].tcp.state, TState::CloseWait);
    assert!(!tcp::tcp_close(&mut n, c, 5));
    assert_eq!((n.socks[c].used, n.socks[c].closing), (true, true));
    assert_eq!(n.socks[c].tcp.state, TState::LastAck);
    assert_eq!((last(&n).0, last(&n).2), (seq, F_FINACK));
    let sent = n.link.sent.len();
    // An answer to less than the FIN is not the end, and nothing is sent.
    sock::parse_frame(&mut n, &segment(5000, 7, 102, seq, F_ACK, b""), 6);
    assert!(n.socks[c].used);
    sock::parse_frame(&mut n, &segment(5000, 7, 102, seq.wrapping_add(1), F_ACK, b""), 7);
    assert!(!n.socks[c].used);
    assert_eq!(n.link.sent.len(), sent);
}

#[test]
fn a_closed_connection_ends_with_the_peer_or_with_time() {
    let mut n = up();
    let (c, seq) = connected(&mut n);
    sock::sock_close(&mut n, c, 5);
    assert_eq!(n.socks[c].tcp.state, TState::FinW1);
    let sent = n.link.sent.len();
    sock::parse_frame(&mut n, &segment(5000, 7, 101, seq.wrapping_add(1), F_ACK, b""), 6);
    assert_eq!((n.socks[c].used, n.socks[c].tcp.state), (true, TState::FinW2));
    assert_eq!(n.link.sent.len(), sent);
    sock::tick(&mut n, true, 5 + CLOSE_TIMEOUT - 1);
    assert!(n.socks[c].used);
    sock::tick(&mut n, true, 5 + 2 * CLOSE_TIMEOUT);
    assert!(!n.socks[c].used);

    // The peer is gone.
    let mut n = up();
    let (c, _) = connected(&mut n);
    sock::sock_close(&mut n, c, 5);
    assert_eq!(n.socks[c].tcp.state, TState::FinW1);
    sock::tick(&mut n, true, 5 + 2 * CLOSE_TIMEOUT);
    assert!(!n.socks[c].used);

    // The peer closes too.
    let mut n = up();
    let (c, seq) = connected(&mut n);
    sock::sock_close(&mut n, c, 5);
    sock::parse_frame(&mut n, &segment(5000, 7, 101, seq.wrapping_add(1), F_FINACK, b""), 6);
    assert!(!n.socks[c].used || n.socks[c].tcp.state != TState::FinW1);
}
