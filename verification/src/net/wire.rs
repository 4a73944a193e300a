//! Wire formats: big-endian fields, the Internet checksum, and the Ethernet,
//! ARP, IPv4, UDP and TCP headers this stack emits.
use vstd::prelude::*;

verus! {

/// Guest address 10.0.2.15, as the number its four wire bytes spell.
pub const GUEST_IP: u32 = 0x0a00_020f;

/// Gateway address 10.0.2.2.
pub const GW_IP: u32 = 0x0a00_0202;

pub const TCP_PROTO: u8 = 6;

pub const UDP_PROTO: u8 = 17;

/// Receive window advertised in every segment.
pub const OUR_WND: u16 = 8192;

/// Longest segment the checksum is taken over: an IPv4 packet holds no more.
pub const MAX_SEG: usize = 0x1_0000;

// ---- big-endian fields ----

pub open spec fn be16_of(b: Seq<u8>, i: int) -> int {
    b[i] * 256 + b[i + 1]
}

pub open spec fn be32_of(b: Seq<u8>, i: int) -> int {
    b[i] * 0x100_0000 + b[i + 1] * 0x1_0000 + b[i + 2] * 0x100 + b[i + 3]
}

pub open spec fn be16_bytes(v: u16) -> Seq<u8> {
    seq![(v / 256) as u8, (v % 256) as u8]
}

pub open spec fn be32_bytes(v: u32) -> Seq<u8> {
    seq![
        (v / 0x100_0000) as u8,
        (v / 0x1_0000 % 256) as u8,
        (v / 0x100 % 256) as u8,
        (v % 256) as u8,
    ]
}

pub fn be16(b: &[u8], i: usize) -> (v: u16)
    requires
        i + 2 <= b@.len(),
    ensures
        v == be16_of(b@, i as int),
{
    b[i] as u16 * 256 + b[i + 1] as u16
}

pub fn be32(b: &[u8], i: usize) -> (v: u32)
    requires
        i + 4 <= b@.len(),
    ensures
        v == be32_of(b@, i as int),
{
    b[i] as u32 * 0x100_0000 + b[i + 1] as u32 * 0x1_0000 + b[i + 2] as u32 * 0x100 + b[i + 3] as u32
}

pub fn push_be16(o: &mut Vec<u8>, v: u16)
    ensures
        final(o)@ == old(o)@ + be16_bytes(v),
{
    o.push((v / 256) as u8);
    o.push((v % 256) as u8);
}

pub fn push_be32(o: &mut Vec<u8>, v: u32)
    ensures
        final(o)@ == old(o)@ + be32_bytes(v),
{
    o.push((v / 0x100_0000) as u8);
    o.push((v / 0x1_0000 % 256) as u8);
    o.push((v / 0x100 % 256) as u8);
    o.push((v % 256) as u8);
}

pub fn push_all(o: &mut Vec<u8>, s: &[u8])
    ensures
        final(o)@ == old(o)@ + s@,
{
    let mut i: usize = 0;
    while i < s.len()
        invariant
            i <= s@.len(),
            o@ == old(o)@ + s@.take(i as int),
        decreases s@.len() - i,
    {
        o.push(s[i]);
        i += 1;
        assert(s@.take(i as int) =~= s@.take(i - 1).push(s@[i - 1]));
    }
    assert(s@.take(i as int) =~= s@);
}

/// Reading a 16-bit field back gives the value that was written.
pub proof fn law_be16_roundtrip(v: u16, pre: Seq<u8>, post: Seq<u8>)
    ensures
        be16_of(pre + be16_bytes(v) + post, pre.len() as int) == v,
{
}

/// Reading a 32-bit field back gives the value that was written.
pub proof fn law_be32_roundtrip(v: u32, pre: Seq<u8>, post: Seq<u8>)
    ensures
        be32_of(pre + be32_bytes(v) + post, pre.len() as int) == v,
{
    let s = pre + be32_bytes(v) + post;
    let n = pre.len() as int;
    assert(s[n] == be32_bytes(v)[0] && s[n + 1] == be32_bytes(v)[1]);
    assert(s[n + 2] == be32_bytes(v)[2] && s[n + 3] == be32_bytes(v)[3]);
}

// ---- Internet checksum ----

/// Sum of the big-endian 16-bit words of `s`; an odd last byte counts as the
/// high half of a word.
pub open spec fn word_sum(s: Seq<u8>) -> nat
    decreases s.len(),
{
    if s.len() == 0 {
        0
    } else if s.len() == 1 {
        (s[0] * 256) as nat
    } else {
        (be16_of(s, 0) + word_sum(s.skip(2))) as nat
    }
}

/// One's-complement reduction to 16 bits: the representative of `x` modulo
/// 65535 in `1..=65535`, and 0 for 0.
pub open spec fn ones_fold(x: nat) -> nat {
    if x == 0 {
        0
    } else {
        ((x - 1) % 65535 + 1) as nat
    }
}

/// The checksum field value for words summing to `x`.
pub open spec fn cksum_of(x: nat) -> u16 {
    (0xffff - ones_fold(x)) as u16
}

/// Sum contributed by the TCP pseudo-header.
pub open spec fn pseudo_sum(src: u32, dst: u32, len: nat) -> nat {
    (src / 0x1_0000 + src % 0x1_0000 + dst / 0x1_0000 + dst % 0x1_0000 + TCP_PROTO + len) as nat
}

pub open spec fn tcp_cksum_of(src: u32, dst: u32, seg: Seq<u8>) -> u16 {
    cksum_of(pseudo_sum(src, dst, seg.len()) + word_sum(seg))
}

pub open spec fn ip_cksum_of(hdr: Seq<u8>) -> u16 {
    cksum_of(word_sum(hdr))
}

pub proof fn lemma_word_sum_bound(s: Seq<u8>)
    ensures
        word_sum(s) <= 65535 * ((s.len() + 1) / 2),
    decreases s.len(),
{
    if s.len() >= 2 {
        lemma_word_sum_bound(s.skip(2));
    }
}

/// Splitting at an even offset splits the sum.
pub proof fn lemma_word_sum_add(a: Seq<u8>, b: Seq<u8>)
    requires
        a.len() % 2 == 0,
    ensures
        word_sum(a + b) == word_sum(a) + word_sum(b),
    decreases a.len(),
{
    if a.len() == 0 {
        assert(a + b =~= b);
    } else {
        assert((a + b).skip(2) =~= a.skip(2) + b);
        lemma_word_sum_add(a.skip(2), b);
    }
}

proof fn lemma_word_sum_field(v: u16)
    ensures
        word_sum(be16_bytes(v)) == v,
{
    let b = be16_bytes(v);
    assert(b.skip(2).len() == 0);
    assert(be16_of(b, 0) == v);
    reveal_with_fuel(word_sum, 2);
}

proof fn lemma_fold_step(x: u32)
    requires
        x > 0xffff,
    ensures
        ones_fold((x % 0x1_0000 + x / 0x1_0000) as nat) == ones_fold(x as nat),
        x % 0x1_0000 + x / 0x1_0000 < x,
{
    let q = x as int / 0x1_0000;
    let y = x as int % 0x1_0000 + q;
    assert(x as int - 1 == (y - 1) + 65535 * q);
    vstd::arithmetic::div_mod::lemma_mod_multiples_vanish(q, y - 1, 65535);
}

fn fold(sum: u32) -> (c: u16)
    ensures
        c == cksum_of(sum as nat),
{
    let mut s: u32 = sum;
    while s > 0xffff
        invariant
            ones_fold(s as nat) == ones_fold(sum as nat),
        decreases s,
    {
        proof {
            lemma_fold_step(s);
        }
        s = s % 0x1_0000 + s / 0x1_0000;
    }
    assert(ones_fold(s as nat) == s);
    0xffff - s as u16
}

fn add_words(start: u32, b: &[u8]) -> (sum: u32)
    requires
        start + 65535 * ((b@.len() + 1) / 2) <= u32::MAX,
        b@.len() <= MAX_SEG,
    ensures
        sum == start + word_sum(b@),
{
    let mut sum: u32 = start;
    let mut i: usize = 0;
    proof {
        lemma_word_sum_bound(b@);
        assert(b@.skip(0) =~= b@);
    }
    while i + 1 < b.len()
        invariant
            i <= b@.len() <= MAX_SEG,
            sum + word_sum(b@.skip(i as int)) == start + word_sum(b@),
            start + word_sum(b@) <= u32::MAX,
        decreases b@.len() - i,
    {
        assert(b@.skip(i as int).skip(2) =~= b@.skip(i + 2));
        sum = sum + be16(b, i) as u32;
        i += 2;
    }
    if i < b.len() {
        assert(b@.skip(i as int).len() == 1);
        sum = sum + b[i] as u32 * 256;
    }
    sum
}

/// TCP checksum over pseudo-header and segment. A segment that carries its
/// own checksum sums to zero.
pub fn tcp_cksum(src: u32, dst: u32, seg: &[u8]) -> (c: u16)
    requires
        seg@.len() <= MAX_SEG,
    ensures
        c == tcp_cksum_of(src, dst, seg@),
{
    let base: u32 = src / 0x1_0000 + src % 0x1_0000 + dst / 0x1_0000 + dst % 0x1_0000
        + TCP_PROTO as u32 + seg.len() as u32;
    fold(add_words(base, seg))
}

/// IPv4 header checksum.
pub fn ip_cksum(hdr: &[u8]) -> (c: u16)
    requires
        hdr@.len() <= MAX_SEG,
    ensures
        c == ip_cksum_of(hdr@),
{
    fold(add_words(0, hdr))
}

/// Filling a zero checksum field with the checksum of the whole makes the
/// whole sum to zero.
proof fn lemma_checksum_cancels(x: nat)
    requires
        x > 0,
    ensures
        cksum_of((x + cksum_of(x)) as nat) == 0,
{
    let f = ones_fold(x);
    let y = (x + (0xffff - f)) as nat;
    assert(1 <= f <= 65535);
    assert((y - 1) % 65535 == 65534) by {
        let q = (x - 1) / 65535;
        vstd::arithmetic::div_mod::lemma_fundamental_div_mod(x as int - 1, 65535);
        assert(y as int - 1 == 65534 + 65535 * q);
        vstd::arithmetic::div_mod::lemma_mod_multiples_vanish(q, 65534, 65535);
        vstd::arithmetic::div_mod::lemma_small_mod(65534, 65535);
    }
}

/// A segment that carries its own checksum sums to zero, whoever made it:
/// `head` is what stands before the field and `rest` what stands behind it.
pub proof fn law_checksummed_segment_sums_to_zero(src: u32, dst: u32, head: Seq<u8>, rest: Seq<u8>)
    requires
        head.len() % 2 == 0,
    ensures
        ({
            let ck = tcp_cksum_of(src, dst, head + be16_bytes(0) + rest);
            tcp_cksum_of(src, dst, head + be16_bytes(ck) + rest) == 0
        }),
{
    let blank = head + be16_bytes(0) + rest;
    let ck = tcp_cksum_of(src, dst, blank);
    let seg = head + be16_bytes(ck) + rest;
    lemma_word_sum_field(0);
    lemma_word_sum_field(ck);
    lemma_word_sum_add(head, be16_bytes(0));
    lemma_word_sum_add(head, be16_bytes(ck));
    lemma_word_sum_add(head + be16_bytes(0), rest);
    lemma_word_sum_add(head + be16_bytes(ck), rest);
    assert(seg.len() == blank.len());
    lemma_checksum_cancels(pseudo_sum(src, dst, blank.len()) + word_sum(blank));
}

// ---- headers ----

pub open spec fn eth_hdr(dst: Seq<u8>, src: Seq<u8>, etype: u16) -> Seq<u8> {
    dst + src + be16_bytes(etype)
}

/// 20-byte IPv4 header without options.
pub open spec fn ip_hdr(total: u16, proto: u8, dst: u32, ck: u16) -> Seq<u8> {
    seq![0x45u8, 0u8] + be16_bytes(total) + seq![0u8, 0u8, 0u8, 0u8, 64u8, proto] + be16_bytes(ck)
        + be32_bytes(GUEST_IP) + be32_bytes(dst)
}

/// Header checksum as sent: a zero sum is written as all ones.
pub open spec fn ip_hdr_cksum(total: u16, proto: u8, dst: u32) -> u16 {
    let c = ip_cksum_of(ip_hdr(total, proto, dst, 0));
    if c == 0 {
        0xffff
    } else {
        c
    }
}

pub open spec fn ip_packet_hdr(total: u16, proto: u8, dst: u32) -> Seq<u8> {
    ip_hdr(total, proto, dst, ip_hdr_cksum(total, proto, dst))
}

/// TCP segment without options; `ck` fills the checksum field.
pub open spec fn tcp_seg(
    sport: u16,
    dport: u16,
    seq: u32,
    ack: u32,
    flags: u8,
    ck: u16,
    payload: Seq<u8>,
) -> Seq<u8> {
    be16_bytes(sport) + be16_bytes(dport) + be32_bytes(seq) + be32_bytes(ack) + seq![0x50u8, flags]
        + be16_bytes(OUR_WND) + be16_bytes(ck) + seq![0u8, 0u8] + payload
}

pub open spec fn tcp_seg_sealed(
    dst: u32,
    sport: u16,
    dport: u16,
    seq: u32,
    ack: u32,
    flags: u8,
    payload: Seq<u8>,
) -> Seq<u8> {
    tcp_seg(
        sport,
        dport,
        seq,
        ack,
        flags,
        tcp_cksum_of(GUEST_IP, dst, tcp_seg(sport, dport, seq, ack, flags, 0, payload)),
        payload,
    )
}

pub open spec fn tcp_frame(
    gw: Seq<u8>,
    mac: Seq<u8>,
    dst: u32,
    dport: u16,
    sport: u16,
    seq: u32,
    ack: u32,
    flags: u8,
    payload: Seq<u8>,
) -> Seq<u8> {
    eth_hdr(gw, mac, 0x0800) + ip_packet_hdr((40 + payload.len()) as u16, TCP_PROTO, dst)
        + tcp_seg_sealed(dst, sport, dport, seq, ack, flags, payload)
}

pub open spec fn udp_frame(
    gw: Seq<u8>,
    mac: Seq<u8>,
    dst: u32,
    dport: u16,
    sport: u16,
    data: Seq<u8>,
) -> Seq<u8> {
    eth_hdr(gw, mac, 0x0800) + ip_packet_hdr((28 + data.len()) as u16, UDP_PROTO, dst)
        + be16_bytes(sport) + be16_bytes(dport) + be16_bytes((8 + data.len()) as u16) + be16_bytes(0)
        + data
}

/// Broadcast "who has the gateway address".
pub open spec fn arp_frame(mac: Seq<u8>) -> Seq<u8> {
    eth_hdr(Seq::new(6, |i: int| 0xffu8), mac, 0x0806) + be16_bytes(1) + be16_bytes(0x0800)
        + seq![6u8, 4u8] + be16_bytes(1) + mac + be32_bytes(GUEST_IP) + Seq::new(6, |i: int| 0u8)
        + be32_bytes(GW_IP)
}

fn push_ip_hdr(o: &mut Vec<u8>, total: u16, proto: u8, dst: u32, ck: u16)
    ensures
        final(o)@ == old(o)@ + ip_hdr(total, proto, dst, ck),
{
    o.push(0x45);
    o.push(0);
    push_be16(o, total);
    push_be16(o, 0);
    push_be16(o, 0);
    o.push(64);
    o.push(proto);
    push_be16(o, ck);
    push_be32(o, GUEST_IP);
    push_be32(o, dst);
    assert(o@ =~= old(o)@ + ip_hdr(total, proto, dst, ck));
}

fn push_ip_packet_hdr(o: &mut Vec<u8>, total: u16, proto: u8, dst: u32)
    ensures
        final(o)@ == old(o)@ + ip_packet_hdr(total, proto, dst),
{
    let mut h: Vec<u8> = Vec::new();
    push_ip_hdr(&mut h, total, proto, dst, 0);
    assert(h@ =~= ip_hdr(total, proto, dst, 0));
    let mut ck: u16 = ip_cksum(h.as_slice());
    if ck == 0 {
        ck = 0xffff;
    }
    push_ip_hdr(o, total, proto, dst, ck);
}

/// Ethernet header: destination, source, type.
pub fn eth_build(dst: &[u8; 6], src: &[u8; 6], etype: u16) -> (o: Vec<u8>)
    ensures
        o@ == eth_hdr(dst@, src@, etype),
{
    let mut o: Vec<u8> = Vec::new();
    push_all(&mut o, dst.as_slice());
    push_all(&mut o, src.as_slice());
    push_be16(&mut o, etype);
    assert(o@ =~= eth_hdr(dst@, src@, etype));
    o
}

fn push_tcp_seg(
    o: &mut Vec<u8>,
    sport: u16,
    dport: u16,
    seq: u32,
    ack: u32,
    flags: u8,
    ck: u16,
    payload: &[u8],
)
    ensures
        final(o)@ == old(o)@ + tcp_seg(sport, dport, seq, ack, flags, ck, payload@),
{
    push_be16(o, sport);
    push_be16(o, dport);
    push_be32(o, seq);
    push_be32(o, ack);
    o.push(0x50);
    o.push(flags);
    push_be16(o, OUR_WND);
    push_be16(o, ck);
    push_be16(o, 0);
    push_all(o, payload);
    assert(o@ =~= old(o)@ + tcp_seg(sport, dport, seq, ack, flags, ck, payload@));
}

pub fn build_tcp_frame(
    gw: &[u8; 6],
    mac: &[u8; 6],
    dst: u32,
    dport: u16,
    sport: u16,
    seq: u32,
    ack: u32,
    flags: u8,
    payload: &[u8],
) -> (f: Vec<u8>)
    requires
        payload@.len() <= 2048,
    ensures
        f@ == tcp_frame(gw@, mac@, dst, dport, sport, seq, ack, flags, payload@),
{
    let mut o = eth_build(gw, mac, 0x0800);
    push_ip_packet_hdr(&mut o, 40 + payload.len() as u16, TCP_PROTO, dst);
    let mut t: Vec<u8> = Vec::new();
    push_tcp_seg(&mut t, sport, dport, seq, ack, flags, 0, payload);
    assert(t@ =~= tcp_seg(sport, dport, seq, ack, flags, 0, payload@));
    let ck = tcp_cksum(GUEST_IP, dst, t.as_slice());
    push_tcp_seg(&mut o, sport, dport, seq, ack, flags, ck, payload);
    o
}

pub fn build_udp_frame(gw: &[u8; 6], mac: &[u8; 6], dst: u32, dport: u16, sport: u16, data: &[u8]) -> (f:
    Vec<u8>)
    requires
        data@.len() <= 2048,
    ensures
        f@ == udp_frame(gw@, mac@, dst, dport, sport, data@),
{
    let mut o = eth_build(gw, mac, 0x0800);
    push_ip_packet_hdr(&mut o, 28 + data.len() as u16, UDP_PROTO, dst);
    push_be16(&mut o, sport);
    push_be16(&mut o, dport);
    push_be16(&mut o, 8 + data.len() as u16);
    push_be16(&mut o, 0);
    push_all(&mut o, data);
    o
}

pub fn build_arp_frame(mac: &[u8; 6]) -> (f: Vec<u8>)
    ensures
        f@ == arp_frame(mac@),
{
    let bcast: [u8; 6] = [0xff; 6];
    let none: [u8; 6] = [0; 6];
    assert(bcast@ =~= Seq::new(6, |i: int| 0xffu8));
    assert(none@ =~= Seq::new(6, |i: int| 0u8));
    let mut o = eth_build(&bcast, mac, 0x0806);
    push_be16(&mut o, 1);
    push_be16(&mut o, 0x0800);
    o.push(6);
    o.push(4);
    push_be16(&mut o, 1);
    push_all(&mut o, mac.as_slice());
    push_be32(&mut o, GUEST_IP);
    push_all(&mut o, none.as_slice());
    push_be32(&mut o, GW_IP);
    assert(o@ =~= arp_frame(mac@));
    o
}

// ---- laws ----

/// A segment this stack builds passes the test applied to received segments:
/// its checksum, taken over the whole, is zero.
pub proof fn law_sent_segment_validates(
    dst: u32,
    sport: u16,
    dport: u16,
    seq: u32,
    ack: u32,
    flags: u8,
    payload: Seq<u8>,
)
    ensures
        tcp_cksum_of(
            GUEST_IP,
            dst,
            tcp_seg_sealed(dst, sport, dport, seq, ack, flags, payload),
        ) == 0,
{
    let head = be16_bytes(sport) + be16_bytes(dport) + be32_bytes(seq) + be32_bytes(ack) + seq![
        0x50u8,
        flags,
    ] + be16_bytes(OUR_WND);
    let tail = seq![0u8, 0u8] + payload;
    let zero = tcp_seg(sport, dport, seq, ack, flags, 0, payload);
    let ck = tcp_cksum_of(GUEST_IP, dst, zero);
    let sealed = tcp_seg_sealed(dst, sport, dport, seq, ack, flags, payload);
    assert(zero =~= head + be16_bytes(0) + tail);
    assert(sealed =~= head + be16_bytes(ck) + tail);
    law_checksummed_segment_sums_to_zero(GUEST_IP, dst, head, tail);
}

} // verus!
