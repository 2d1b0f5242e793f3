//! IPv4: build/parse the fixed 20-byte header (no options), checksum the
//! header, and demultiplex the payload by protocol number.
use vstd::prelude::*;
use super::ethernet::ETHERTYPE_IP;
use super::{
    checksum, checksum_of, icmp, law_filled_checksum_verifies, next_hop_mac, sent_frame, tcp,
    transmit_ethernet,
    udp, Event, MacAddr, Stack, StackView, GATEWAY, IP,
};
use crate::bytes::{be16, extend, four, four_at, low16, push_u16, put_u16, u16_at, u16_bytes, with_u16};
use crate::text::{dotted, push_ip};

verus! {

pub const PROTO_ICMP: u8 = 1;

pub const PROTO_TCP: u8 = 6;

pub const PROTO_UDP: u8 = 17;

pub const HEADER_LEN: usize = 20;

/// The header with a zero checksum field: version 4, twenty bytes, no service
/// class, identification 1, "don't fragment", a time to live of 64.
pub open spec fn blank_header(proto: u8, src: [u8; 4], dst: [u8; 4], total: u16) -> Seq<u8> {
    seq![0x45u8, 0] + u16_bytes(total) + seq![0u8, 1, 0x40, 0, 64, proto, 0, 0] + src@ + dst@
}

/// The header with its checksum.
pub open spec fn header_of(proto: u8, src: [u8; 4], dst: [u8; 4], total: u16) -> Seq<u8> {
    let blank = blank_header(proto, src, dst, total);
    with_u16(blank, 10, checksum_of(blank))
}

/// Assemble a 20-byte IPv4 header with a correct checksum.
pub fn header(proto: u8, src: [u8; 4], dst: [u8; 4], total: u16) -> (h: Vec<u8>)
    ensures
        h@ == header_of(proto, src, dst, total),
        h@.len() == HEADER_LEN,
{
    let mut h: Vec<u8> = Vec::with_capacity(HEADER_LEN);
    h.push(0x45);
    h.push(0);
    push_u16(&mut h, total);
    push_u16(&mut h, 1);
    push_u16(&mut h, 0x4000);
    h.push(64);
    h.push(proto);
    push_u16(&mut h, 0);
    extend(&mut h, src.as_slice());
    extend(&mut h, dst.as_slice());
    assert(h@ =~= blank_header(proto, src, dst, total));
    let cks: u16 = checksum(h.as_slice());
    put_u16(&mut h, 10, cks);
    h
}

/// The packet that carries `payload`; its length field holds sixteen bits.
pub open spec fn packet_of(proto: u8, src: [u8; 4], dst: [u8; 4], payload: Seq<u8>) -> Seq<u8> {
    header_of(proto, src, dst, ((payload.len() + HEADER_LEN) % 0x1_0000) as u16) + payload
}

/// What sending `payload` to `dst` does to the stack.
pub open spec fn sent(s: StackView, dst: [u8; 4], proto: u8, payload: Seq<u8>) -> StackView {
    s.transmitted(s.next_hop(dst), ETHERTYPE_IP, packet_of(proto, IP, dst, payload))
}

/// Send an IPv4 packet carrying `payload` for `proto` to `dst`, resolving the
/// next-hop MAC via the ARP cache.
pub fn send(s: &mut Stack, dst: [u8; 4], proto: u8, payload: &[u8]) -> (r: bool)
    ensures
        r == (old(s)@.nic is Some),
        final(s)@ == sent(old(s)@, dst, proto, payload@),
{
    let total: u16 = low16(payload.len(), HEADER_LEN);
    let mut pkt = header(proto, IP, dst, total);
    extend(&mut pkt, payload);
    let mac = next_hop_mac(s, dst);
    transmit_ethernet(s, mac, ETHERTYPE_IP, pkt.as_slice())
}

/// Whether `pkt` is long enough for a header and of version 4.
pub open spec fn well_formed(pkt: Seq<u8>) -> bool {
    pkt.len() >= HEADER_LEN && pkt[0] / 16 == 4
}

/// Where the payload of `pkt` starts: behind the header, at least twenty bytes.
pub open spec fn body_start(pkt: Seq<u8>) -> int {
    let ihl = pkt[0] % 16 * 4;
    if ihl < HEADER_LEN {
        HEADER_LEN as int
    } else {
        ihl
    }
}

/// Where the payload of `pkt` ends: at the length that the header gives, at
/// most at the end of the packet.
pub open spec fn body_end(pkt: Seq<u8>) -> int {
    let total = u16_at(pkt, 2) as int;
    if total < pkt.len() {
        total
    } else {
        pkt.len() as int
    }
}

/// Whether the payload of `pkt`, if it is well formed, does not end before it starts.
pub open spec fn sliceable(pkt: Seq<u8>) -> bool {
    well_formed(pkt) ==> body_start(pkt) <= body_end(pkt)
}

/// The length that the header gives.
pub open spec fn total_of(pkt: Seq<u8>) -> usize {
    u16_at(pkt, 2) as usize
}

fn total_length(pkt: &[u8]) -> (r: usize)
    requires
        well_formed(pkt@),
    ensures
        r == total_of(pkt@),
{
    be16(pkt, 2) as usize
}

fn body_range(pkt: &[u8]) -> (r: (usize, usize))
    requires
        well_formed(pkt@),
    ensures
        r.0 == body_start(pkt@),
        r.1 == body_end(pkt@),
{
    let ihl: usize = (pkt[0] % 16) as usize * 4;
    let total: usize = be16(pkt, 2) as usize;
    let start: usize = if ihl < HEADER_LEN {
        HEADER_LEN
    } else {
        ihl
    };
    let end: usize = if total < pkt.len() {
        total
    } else {
        pkt.len()
    };
    (start, end)
}

/// Whether [`handle`] can take `pkt`.
pub fn accepts(pkt: &[u8]) -> (r: bool)
    ensures
        r == sliceable(pkt@),
{
    if pkt.len() < HEADER_LEN || pkt[0] / 16 != 4 {
        return true;
    }
    let (start, end) = body_range(pkt);
    start <= end
}

/// What receiving the packet `pkt` does to the stack.
pub open spec fn handled(s: StackView, pkt: Seq<u8>) -> StackView {
    if !well_formed(pkt) {
        s.logged(Event::MalformedIp { len: pkt.len() as usize })
    } else {
        let src = four_at(pkt, 12);
        let body = pkt.subrange(body_start(pkt), body_end(pkt));
        dispatched(
            s.logged(Event::IpReceived { src, proto: pkt[9], len: total_of(pkt) }),
            pkt[9],
            src,
            body,
        )
    }
}

/// What handing `body` to protocol `proto` does to the stack.
pub open spec fn dispatched(s: StackView, proto: u8, src: [u8; 4], body: Seq<u8>) -> StackView {
    if proto == PROTO_ICMP {
        icmp::handled(s, src, body)
    } else if proto == PROTO_UDP {
        udp::handled(s, src, body)
    } else if proto == PROTO_TCP {
        tcp::handled(s, src, body)
    } else {
        s.logged(Event::UnsupportedProtocol(proto))
    }
}

/// Decode an inbound IPv4 packet and hand its payload to the L4 protocol.
pub fn handle(s: &mut Stack, pkt: &[u8])
    requires
        sliceable(pkt@),
    ensures
        final(s)@ == handled(old(s)@, pkt@),
{
    if pkt.len() < HEADER_LEN || pkt[0] / 16 != 4 {
        s.log(Event::MalformedIp { len: pkt.len() });
        return;
    }
    let (start, end) = body_range(pkt);
    let total: usize = total_length(pkt);
    let proto: u8 = pkt[9];
    let src = four(pkt, 12);
    let body = vstd::slice::slice_subrange(pkt, start, end);
    s.log(Event::IpReceived { src, proto, len: total });
    match proto {
        PROTO_ICMP => icmp::handle(s, src, body),
        PROTO_UDP => udp::handle(s, src, body),
        PROTO_TCP => tcp::handle(s, src, body),
        other => s.log(Event::UnsupportedProtocol(other)),
    }
}

/// An address in dotted-quad form.
pub fn fmt(ip: [u8; 4]) -> (r: String)
    ensures
        r@ == dotted(ip@),
{
    let mut r = String::new();
    push_ip(&mut r, ip);
    assert(r@ =~= dotted(ip@));
    r
}

/// Every header that is built checks out.
pub proof fn law_header_checksum_verifies(proto: u8, src: [u8; 4], dst: [u8; 4], total: u16)
    ensures
        checksum_of(header_of(proto, src, dst, total)) == 0,
{
    law_filled_checksum_verifies(blank_header(proto, src, dst, total), 10);
}

/// A packet that was built around a payload is decoded to the same source,
/// protocol and payload, as long as its length fits in the length field.
pub proof fn law_packet_round_trip(
    s: StackView,
    proto: u8,
    src: [u8; 4],
    dst: [u8; 4],
    payload: Seq<u8>,
)
    requires
        payload.len() + HEADER_LEN <= 0xffff,
    ensures
        sliceable(packet_of(proto, src, dst, payload)),
        handled(s, packet_of(proto, src, dst, payload)) == dispatched(
            s.logged(
                Event::IpReceived { src, proto, len: (payload.len() + HEADER_LEN) as usize },
            ),
            proto,
            src,
            payload,
        ),
{
    lemma_packet_fields(proto, src, dst, payload);
}

proof fn lemma_packet_fields(proto: u8, src: [u8; 4], dst: [u8; 4], payload: Seq<u8>)
    requires
        payload.len() + HEADER_LEN <= 0xffff,
    ensures
        ({
            let p = packet_of(proto, src, dst, payload);
            &&& well_formed(p)
            &&& p[9] == proto
            &&& u16_at(p, 2) == payload.len() + HEADER_LEN
            &&& four_at(p, 12) == src
            &&& body_start(p) == HEADER_LEN
            &&& body_end(p) == p.len()
            &&& p.subrange(HEADER_LEN as int, p.len() as int) == payload
        }),
{
    let p = packet_of(proto, src, dst, payload);
    let total = ((payload.len() + HEADER_LEN) % 0x1_0000) as u16;
    let b = blank_header(proto, src, dst, total);
    assert(b.len() == 20);
    assert(b[0] == 0x45 && b[2] == u16_bytes(total)[0] && b[3] == u16_bytes(total)[1]);
    assert(b[9] == proto && b[12] == src[0] && b[13] == src[1] && b[14] == src[2] && b[15]
        == src[3]);
    assert(p.len() == 20 + payload.len());
    assert(p[0] == b[0] && p[2] == b[2] && p[3] == b[3] && p[9] == b[9]);
    assert(p[12] == b[12] && p[13] == b[13] && p[14] == b[14] && p[15] == b[15]);
    assert(four_at(p, 12)@ =~= src@);
    assert(four_at(p, 12) =~= src);
    assert(p.subrange(20, p.len() as int) =~= payload);
}

/// Handling a packet leaves the receive ring alone.
pub proof fn lemma_keeps_ring(s: StackView, pkt: Seq<u8>)
    ensures
        s.same_ring(handled(s, pkt)),
{
    let src = four_at(pkt, 12);
    let body = pkt.subrange(body_start(pkt), body_end(pkt));
    let l = s.logged(Event::IpReceived { src, proto: pkt[9], len: total_of(pkt) });
    icmp::lemma_keeps_ring(l, src, body);
    udp::lemma_keeps_ring(l, src, body);
    tcp::lemma_keeps_ring(l, src, body);
}

/// The data of the echo request in the self test: `simplelinux`.
pub open spec fn demo_data() -> Seq<u8> {
    seq![0x73, 0x69, 0x6d, 0x70, 0x6c, 0x65, 0x6c, 0x69, 0x6e, 0x75, 0x78]
}

/// The packet of the self test: an echo request from the gateway to us.
pub open spec fn demo_packet() -> Seq<u8> {
    packet_of(PROTO_ICMP, GATEWAY, IP, icmp::request_of(0x1234, 1, demo_data()))
}

/// Self-test: report the route to the gateway, and decode a made-up inbound packet
/// with an echo request from there.
pub fn demo(s: &mut Stack) -> (r: MacAddr)
    ensures
        r == old(s)@.next_hop(GATEWAY),
        final(s)@ == handled(old(s)@, demo_packet()),
{
    let mac = next_hop_mac(s, GATEWAY);
    let data: [u8; 11] = [0x73, 0x69, 0x6d, 0x70, 0x6c, 0x65, 0x6c, 0x69, 0x6e, 0x75, 0x78];
    assert(data@ =~= demo_data());
    let req = icmp::echo_request(0x1234, 1, data.as_slice());
    let total: u16 = low16(req.len(), HEADER_LEN);
    let mut pkt = header(PROTO_ICMP, GATEWAY, IP, total);
    extend(&mut pkt, req.as_slice());
    proof {
        law_packet_round_trip(s@, PROTO_ICMP, GATEWAY, IP, req@);
    }
    handle(s, pkt.as_slice());
    mac
}

/// Every byte of a packet: twenty of header, whose checksum is right, then the
/// payload.
pub proof fn law_packet_layout(proto: u8, src: [u8; 4], dst: [u8; 4], payload: Seq<u8>)
    ensures
        ({
            let p = packet_of(proto, src, dst, payload);
            &&& p.len() == 20 + payload.len()
            &&& p[0] == 0x45 && p[1] == 0
            &&& p[2] * 256 + p[3] == (20 + payload.len()) % 65536
            &&& p.subrange(4, 9) == seq![0u8, 1, 0x40, 0, 64]
            &&& p[9] == proto
            &&& p.subrange(12, 16) == src@
            &&& p.subrange(16, 20) == dst@
            &&& p.skip(20) == payload
            &&& checksum_of(p.take(20)) == 0
        }),
{
    let p = packet_of(proto, src, dst, payload);
    let total = ((payload.len() + HEADER_LEN) % 0x1_0000) as u16;
    let b = blank_header(proto, src, dst, total);
    assert(b.len() == 20);
    assert(b[0] == 0x45 && b[1] == 0 && b[2] == u16_bytes(total)[0] && b[3] == u16_bytes(total)[1]);
    assert(b[4] == 0 && b[5] == 1 && b[6] == 0x40 && b[7] == 0 && b[8] == 64 && b[9] == proto);
    assert(p.take(20) =~= header_of(proto, src, dst, total));
    law_header_checksum_verifies(proto, src, dst, total);
    assert(p.subrange(4, 9) =~= seq![0u8, 1, 0x40, 0, 64]);
    assert(p.subrange(12, 16) =~= src@);
    assert(p.subrange(16, 20) =~= dst@);
    assert(p.skip(20) =~= payload);
}

/// What sending puts on the wire: one frame to the next hop, of type 0x0800, with a
/// packet from 10.0.2.15 to the destination around the payload.
pub proof fn law_packet_on_the_wire(s: StackView, dst: [u8; 4], proto: u8, payload: Seq<u8>)
    requires
        s.nic is Some,
    ensures
        ({
            let after = sent(s, dst, proto, payload);
            let f = sent_frame(s.nic->0, after.nic->0);
            &&& after.nic is Some
            &&& f.len() == 34 + payload.len()
            &&& f.subrange(0, 6) == s.next_hop(dst).0@
            &&& f.subrange(6, 12) == s.nic->0.mac@
            &&& f[12] == 0x08 && f[13] == 0x00
            &&& f[14] == 0x45
            &&& f[16] * 256 + f[17] == (20 + payload.len()) % 65536
            &&& f[23] == proto
            &&& f.subrange(26, 30) == seq![10u8, 0, 2, 15]
            &&& f.subrange(30, 34) == dst@
            &&& f.skip(34) == payload
            &&& checksum_of(f.subrange(14, 34)) == 0
        }),
{
    let p = packet_of(proto, IP, dst, payload);
    law_packet_layout(proto, IP, dst, payload);
    super::law_transmitted_frame(s, s.next_hop(dst), ETHERTYPE_IP, p);
    let f = sent_frame(s.nic->0, sent(s, dst, proto, payload).nic->0);
    assert(f.skip(14) == p);
    assert(forall|i: int| 0 <= i < p.len() ==> #[trigger] f.skip(14)[i] == f[i + 14]);
    assert(p[0] == f[14] && p[2] == f[16] && p[3] == f[17] && p[9] == f[23]);
    assert(f.subrange(26, 30) =~= p.subrange(12, 16));
    assert(IP@ =~= seq![10u8, 0, 2, 15]);
    assert(f.subrange(30, 34) =~= p.subrange(16, 20));
    assert(f.skip(34) =~= p.skip(20));
    assert(f.subrange(14, 34) =~= p.take(20));
}

/// What a received packet holds: options behind the first twenty bytes, as many words
/// as the low half of the first byte counts beyond five, are skipped, and so is what
/// lies behind the length that the header gives. The protocol and the source come
/// from bytes 9 and 12 to 15.
pub proof fn law_options_and_padding_are_skipped(
    s: StackView,
    h: Seq<u8>,
    options: Seq<u8>,
    payload: Seq<u8>,
    padding: Seq<u8>,
    src: [u8; 4],
)
    requires
        h.len() == 20,
        h[0] == 0x40 + 5 + options.len() / 4,
        options.len() % 4 == 0,
        options.len() <= 40,
        h[2] * 256 + h[3] == 20 + options.len() + payload.len(),
        h.subrange(12, 16) == src@,
    ensures
        sliceable(h + options + payload + padding),
        handled(s, h + options + payload + padding) == dispatched(
            s.logged(
                Event::IpReceived {
                    src,
                    proto: h[9],
                    len: (20 + options.len() + payload.len()) as usize,
                },
            ),
            h[9],
            src,
            payload,
        ),
{
    let p = h + options + payload + padding;
    assert(p[0] == h[0] && p[2] == h[2] && p[3] == h[3] && p[9] == h[9]);
    assert(forall|i: int| 0 <= i < 4 ==> #[trigger] h.subrange(12, 16)[i] == h[12 + i]);
    assert(src[0] == h[12] && src[1] == h[13] && src[2] == h[14] && src[3] == h[15]);
    assert(four_at(p, 12)@ =~= src@);
    assert(four_at(p, 12) =~= src);
    assert(p[0] / 16 == 4);
    assert(body_start(p) == 20 + options.len());
    assert(body_end(p) == 20 + options.len() + payload.len());
    assert(p.subrange(body_start(p), body_end(p)) =~= payload);
}

/// Who gets a payload: ICMP those of protocol 1, TCP those of 6, UDP those of 17;
/// any other changes nothing but the log, and so does a packet that is too short or
/// not of version 4.
pub proof fn law_payloads_by_protocol(s: StackView, src: [u8; 4], body: Seq<u8>, proto: u8, pkt: Seq<u8>)
    ensures
        dispatched(s, 1, src, body) == icmp::handled(s, src, body),
        dispatched(s, 6, src, body) == tcp::handled(s, src, body),
        dispatched(s, 17, src, body) == udp::handled(s, src, body),
        proto != 1 && proto != 6 && proto != 17 ==> {
            let t = dispatched(s, proto, src, body);
            t.nic == s.nic && t.cache == s.cache && t.sockets == s.sockets
        },
        pkt.len() < 20 || pkt[0] < 0x40 || pkt[0] >= 0x50 ==> {
            let t = handled(s, pkt);
            t.nic == s.nic && t.cache == s.cache && t.sockets == s.sockets
        },
{
}

/// The lengths in the header are not trusted: a header of fewer than five words counts
/// as one of five, a packet shorter than it says ends where it ends, and one whose
/// payload would end before it starts is refused.
pub proof fn law_lengths_are_bounded(h: Seq<u8>, rest: Seq<u8>)
    requires
        h.len() == 20,
        0x40 <= h[0] < 0x50,
    ensures
        h[0] <= 0x45 && h[2] * 256 + h[3] >= 20 + rest.len() ==> {
            let p = h + rest;
            sliceable(p) && p.subrange(body_start(p), body_end(p)) == rest
        },
        4 * (h[0] - 0x40) > 20 + rest.len() ==> !sliceable(h + rest),
        h[2] * 256 + h[3] < 20 ==> !sliceable(h + rest),
{
    let p = h + rest;
    assert(p[0] == h[0] && p[2] == h[2] && p[3] == h[3]);
    if h[0] <= 0x45 && h[2] * 256 + h[3] >= 20 + rest.len() {
        assert(body_start(p) == 20);
        assert(body_end(p) == p.len());
        assert(p.subrange(20, p.len() as int) =~= rest);
    }
}

} // verus!
