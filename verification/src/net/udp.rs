//! UDP: a connectionless datagram service. The 8-byte header is
//! `sport[2] dport[2] length[2] checksum[2]`; the checksum additionally covers
//! a 12-byte IPv4 pseudo-header so a misrouted datagram is detected.
use vstd::prelude::*;
use super::ip::{self, PROTO_UDP};
use super::ethernet::{self, ETHERTYPE_IP, MacAddr};
use super::socket;
use super::{
    checksum, checksum_of, law_filled_checksum_verifies, pseudo_header, push_pseudo_header,
    sent_frame, Event, Stack, StackView, GATEWAY, IP,
};
use crate::bytes::{be16, extend, low16, overlaid, push_u16, put_u16, u16_at, u16_bytes, with_u16};

verus! {

pub const HEADER_LEN: usize = 8;

/// The length field of a datagram with `n` data bytes; it holds sixteen bits.
pub open spec fn length_field(n: nat) -> u16 {
    ((n + HEADER_LEN) % 0x1_0000) as u16
}

/// The datagram with a zero checksum field.
pub open spec fn blank_datagram(sport: u16, dport: u16, data: Seq<u8>) -> Seq<u8> {
    u16_bytes(sport) + u16_bytes(dport) + u16_bytes(length_field(data.len())) + seq![0u8, 0u8]
        + data
}

/// The datagram with its checksum, which covers the pseudo-header too.
pub open spec fn datagram_of(
    src: [u8; 4],
    sport: u16,
    dst: [u8; 4],
    dport: u16,
    data: Seq<u8>,
) -> Seq<u8> {
    let blank = blank_datagram(sport, dport, data);
    let pseudo = pseudo_header(src, dst, PROTO_UDP, length_field(data.len()));
    with_u16(blank, 6, checksum_of(pseudo + blank))
}

/// What sending a datagram does to the stack.
pub open spec fn sent(
    s: StackView,
    sport: u16,
    dst: [u8; 4],
    dport: u16,
    data: Seq<u8>,
) -> StackView {
    ip::sent(s, dst, PROTO_UDP, datagram_of(IP, sport, dst, dport, data))
}

/// Send a UDP datagram from `src_port` to `dst:dst_port`.
pub fn send(s: &mut Stack, src_port: u16, dst: [u8; 4], dst_port: u16, data: &[u8]) -> (r: bool)
    ensures
        r == (old(s)@.nic is Some),
        final(s)@ == sent(old(s)@, src_port, dst, dst_port, data@),
{
    let total: u16 = low16(data.len(), HEADER_LEN);
    let mut d: Vec<u8> = Vec::new();
    push_u16(&mut d, src_port);
    push_u16(&mut d, dst_port);
    push_u16(&mut d, total);
    push_u16(&mut d, 0);
    extend(&mut d, data);
    assert(d@ =~= blank_datagram(src_port, dst_port, data@));

    let mut pseudo: Vec<u8> = Vec::new();
    push_pseudo_header(&mut pseudo, IP, dst, PROTO_UDP, total);
    extend(&mut pseudo, d.as_slice());
    assert(pseudo@ =~= pseudo_header(IP, dst, PROTO_UDP, total) + d@);
    let cks: u16 = checksum(pseudo.as_slice());
    assert(d.len() >= 8);
    put_u16(&mut d, 6, cks);
    ip::send(s, dst, PROTO_UDP, d.as_slice())
}

/// The data of the datagram `d`: what its length field covers, at most all of it.
pub open spec fn data_of(d: Seq<u8>) -> Seq<u8> {
    let length = u16_at(d, 4) as int;
    let end = if length < HEADER_LEN {
        HEADER_LEN as int
    } else if length > d.len() {
        d.len() as int
    } else {
        length
    };
    d.subrange(HEADER_LEN as int, end)
}

/// What receiving the datagram `d` from `src` does to the stack.
pub open spec fn handled(s: StackView, src: [u8; 4], d: Seq<u8>) -> StackView {
    if d.len() < HEADER_LEN {
        s
    } else {
        let data = data_of(d);
        socket::delivered(
            s.logged(
                Event::UdpReceived {
                    src,
                    sport: u16_at(d, 0),
                    dport: u16_at(d, 2),
                    len: data.len() as usize,
                },
            ),
            u16_at(d, 2),
            src,
            u16_at(d, 0),
            data,
        )
    }
}

/// Decode an inbound UDP datagram and deliver its payload to any socket bound
/// to the destination port.
pub fn handle(s: &mut Stack, src: [u8; 4], d: &[u8])
    ensures
        final(s)@ == handled(old(s)@, src, d@),
{
    if d.len() < HEADER_LEN {
        return;
    }
    let sport: u16 = be16(d, 0);
    let dport: u16 = be16(d, 2);
    let length: usize = be16(d, 4) as usize;
    let end: usize = if length < HEADER_LEN {
        HEADER_LEN
    } else if length > d.len() {
        d.len()
    } else {
        length
    };
    let payload = vstd::slice::slice_subrange(d, HEADER_LEN, end);
    s.log(Event::UdpReceived { src, sport, dport, len: payload.len() });
    socket::deliver(s, dport, src, sport, payload);
}

/// Every datagram that is built checks out together with its pseudo-header.
pub proof fn law_datagram_checksum_verifies(
    src: [u8; 4],
    sport: u16,
    dst: [u8; 4],
    dport: u16,
    data: Seq<u8>,
)
    ensures
        checksum_of(
            pseudo_header(src, dst, PROTO_UDP, length_field(data.len())) + datagram_of(
                src,
                sport,
                dst,
                dport,
                data,
            ),
        ) == 0,
{
    let blank = blank_datagram(sport, dport, data);
    let pseudo = pseudo_header(src, dst, PROTO_UDP, length_field(data.len()));
    let c = checksum_of(pseudo + blank);
    assert(pseudo.len() == 12);
    assert(pseudo + with_u16(blank, 6, c) =~= with_u16(pseudo + blank, 18, c));
    law_filled_checksum_verifies(pseudo + blank, 18);
}

/// A datagram that was built from ports and data is delivered with the same
/// ports and data, as long as its length fits in the length field.
pub proof fn law_datagram_round_trip(
    s: StackView,
    src: [u8; 4],
    sport: u16,
    dst: [u8; 4],
    dport: u16,
    data: Seq<u8>,
)
    requires
        data.len() + HEADER_LEN <= 0xffff,
    ensures
        handled(s, src, datagram_of(src, sport, dst, dport, data)) == socket::delivered(
            s.logged(Event::UdpReceived { src, sport, dport, len: data.len() as usize }),
            dport,
            src,
            sport,
            data,
        ),
{
    let d = datagram_of(src, sport, dst, dport, data);
    assert(u16_at(d, 0) == sport);
    assert(u16_at(d, 2) == dport);
    assert(u16_at(d, 4) == data.len() + HEADER_LEN);
    assert(data_of(d) =~= data);
}

/// A datagram that one host sends in an Ethernet frame reaches the sockets of the
/// host that receives the frame, with its sender and its data, as long as the
/// packet's length fits in the length fields.
pub proof fn law_frame_delivers_datagram(
    s: StackView,
    to: MacAddr,
    from: MacAddr,
    src: [u8; 4],
    sport: u16,
    dst: [u8; 4],
    dport: u16,
    data: Seq<u8>,
)
    requires
        data.len() + HEADER_LEN + ip::HEADER_LEN <= 0xffff,
    ensures
        ({
            let packet = ip::packet_of(PROTO_UDP, src, dst, datagram_of(src, sport, dst, dport, data));
            let len = data.len() + HEADER_LEN + ip::HEADER_LEN;
            ethernet::handled(s, ethernet::frame_of(to, from, ETHERTYPE_IP, packet))
                == socket::delivered(
                s.logged(Event::IpReceived { src, proto: PROTO_UDP, len: len as usize }).logged(
                    Event::UdpReceived { src, sport, dport, len: data.len() as usize },
                ),
                dport,
                src,
                sport,
                data,
            )
        }),
{
    let d = datagram_of(src, sport, dst, dport, data);
    assert(d.len() == data.len() + HEADER_LEN);
    ethernet::law_frame_carries_payload(s, to, from, ip::packet_of(PROTO_UDP, src, dst, d));
    ip::law_packet_round_trip(s, PROTO_UDP, src, dst, d);
    let len = data.len() + HEADER_LEN + ip::HEADER_LEN;
    law_datagram_round_trip(
        s.logged(Event::IpReceived { src, proto: PROTO_UDP, len: len as usize }),
        src,
        sport,
        dst,
        dport,
        data,
    );
}

/// Handling a datagram leaves the receive ring alone.
pub proof fn lemma_keeps_ring(s: StackView, src: [u8; 4], d: Seq<u8>)
    ensures
        s.same_ring(handled(s, src, d)),
{
}

/// The message of the self test: `hello over udp`.
pub open spec fn demo_message() -> Seq<u8> {
    seq![0x68, 0x65, 0x6c, 0x6c, 0x6f, 0x20, 0x6f, 0x76, 0x65, 0x72, 0x20, 0x75, 0x64, 0x70]
}

/// The datagram of the self test: from port 7 to port 9999, without a checksum.
pub open spec fn demo_segment() -> Seq<u8> {
    u16_bytes(7) + u16_bytes(9999) + u16_bytes(22) + u16_bytes(0) + demo_message()
}

/// The stack once the self test has opened a socket in slot `i` and bound it.
pub open spec fn demo_bound(s: StackView, i: int) -> StackView {
    StackView {
        sockets: socket::bound(
            socket::with_socket(s.sockets, i, socket::fresh(PROTO_UDP)),
            i,
            9999,
        ),
        ..s
    }
}

/// The stack after the self test: a socket was opened and bound, the datagram from
/// the gateway handled and received, and the socket closed.
pub open spec fn demo_ran(s: StackView) -> StackView {
    let i = socket::free_slot(s.sockets);
    let t = handled(demo_bound(s, i), GATEWAY, demo_segment()).received(i);
    StackView { sockets: t.sockets.update(i, None), ..t }
}

/// The buffer of the self test: the message, then zeros.
pub open spec fn demo_buffer() -> Seq<u8> {
    overlaid(Seq::new(64, |i: int| 0u8), demo_message())
}

/// Self-test: deliver a crafted datagram to a bound port and read it back through
/// the socket layer. Returns the socket, what was received, and the buffer.
pub fn demo(s: &mut Stack) -> (r: (usize, Option<(usize, [u8; 4], u16)>, Vec<u8>))
    ensures
        final(s)@ == demo_ran(old(s)@),
        r.0 == socket::free_slot(old(s)@.sockets),
        r.1 == Some((14usize, GATEWAY, 7u16)),
        r.2@ == demo_buffer(),
        r.2@.take(14) == demo_message(),
{
    let sock: usize = socket::socket(&mut s.sockets, PROTO_UDP);
    socket::bind(&mut s.sockets, sock, 9999);
    assert(s@ =~= demo_bound(old(s)@, sock as int));
    let msg: [u8; 14] = [0x68, 0x65, 0x6c, 0x6c, 0x6f, 0x20, 0x6f, 0x76, 0x65, 0x72, 0x20, 0x75, 0x64, 0x70];
    assert(msg@ =~= demo_message());
    let mut seg: Vec<u8> = Vec::new();
    push_u16(&mut seg, 7);
    push_u16(&mut seg, 9999);
    push_u16(&mut seg, 22);
    push_u16(&mut seg, 0);
    extend(&mut seg, msg.as_slice());
    proof {
        assert(seg@ =~= demo_segment());
        assert(u16_at(seg@, 0) == 7);
        assert(u16_at(seg@, 2) == 9999);
        assert(u16_at(seg@, 4) == 22);
        assert(data_of(seg@) =~= msg@);
    }
    let ghost seen = s@.logged(Event::UdpReceived { src: GATEWAY, sport: 7, dport: 9999, len: 14 });
    proof {
        socket::law_delivery_is_received(seen, 9999, GATEWAY, 7, msg@, sock as int);
    }
    handle(s, GATEWAY, seg.as_slice());
    let mut buf: Vec<u8> = vec![0u8; 64];
    assert(buf@ =~= Seq::new(64, |i: int| 0u8));
    let got = socket::recvfrom(&mut s.sockets, sock, buf.as_mut_slice());
    proof {
        crate::bytes::law_overlay(Seq::new(64, |i: int| 0u8), msg@);
    }
    socket::close(&mut s.sockets, sock);
    assert(s@ =~= demo_ran(old(s)@));
    (sock, got, buf)
}

/// Every byte of a datagram that fits in its length field: the two ports, the length,
/// the data, and a checksum that makes the datagram check out behind the twelve bytes
/// of the two addresses, a zero, 17, and the same length.
pub proof fn law_datagram_layout(
    src: [u8; 4],
    sport: u16,
    dst: [u8; 4],
    dport: u16,
    data: Seq<u8>,
)
    requires
        data.len() + 8 <= 65535,
    ensures
        ({
            let d = datagram_of(src, sport, dst, dport, data);
            let length = d.len() as int;
            &&& length == 8 + data.len()
            &&& d[0] * 256 + d[1] == sport
            &&& d[2] * 256 + d[3] == dport
            &&& d[4] * 256 + d[5] == length
            &&& d.skip(8) == data
            &&& checksum_of(
                src@ + dst@ + seq![0u8, 17u8, (length / 256) as u8, (length % 256) as u8] + d,
            ) == 0
        }),
{
    let d = datagram_of(src, sport, dst, dport, data);
    let length = d.len() as int;
    law_datagram_checksum_verifies(src, sport, dst, dport, data);
    assert(length == 8 + data.len());
    assert(length_field(data.len()) == length);
    assert(pseudo_header(src, dst, PROTO_UDP, length_field(data.len())) =~= src@ + dst@ + seq![
        0u8,
        17u8,
        (length / 256) as u8,
        (length % 256) as u8,
    ]);
    assert(d.skip(8) =~= data);
}

/// What sending puts on the wire: behind the Ethernet and IPv4 headers, the ports,
/// the length and the data, with a checksum that is right for 10.0.2.15 and the
/// destination.
pub proof fn law_datagram_on_the_wire(
    s: StackView,
    sport: u16,
    dst: [u8; 4],
    dport: u16,
    data: Seq<u8>,
)
    requires
        s.nic is Some,
        data.len() + 28 <= 65535,
    ensures
        ({
            let after = sent(s, sport, dst, dport, data);
            let f = sent_frame(s.nic->0, after.nic->0);
            let length = 8 + data.len() as int;
            &&& after.nic is Some
            &&& f.len() == 42 + data.len()
            &&& f.subrange(0, 6) == s.next_hop(dst).0@
            &&& f[23] == 17
            &&& f.subrange(26, 30) == seq![10u8, 0, 2, 15]
            &&& f.subrange(30, 34) == dst@
            &&& f[34] * 256 + f[35] == sport
            &&& f[36] * 256 + f[37] == dport
            &&& f[38] * 256 + f[39] == length
            &&& f.skip(42) == data
            &&& checksum_of(
                f.subrange(26, 34) + seq![0u8, 17u8, (length / 256) as u8, (length % 256) as u8]
                    + f.skip(34),
            ) == 0
        }),
{
    let d = datagram_of(IP, sport, dst, dport, data);
    law_datagram_layout(IP, sport, dst, dport, data);
    ip::law_packet_on_the_wire(s, dst, PROTO_UDP, d);
    let f = sent_frame(s.nic->0, sent(s, sport, dst, dport, data).nic->0);
    assert(f.skip(34) == d);
    assert(forall|i: int| 0 <= i < d.len() ==> #[trigger] f.skip(34)[i] == f[i + 34]);
    assert(d[0] == f[34] && d[1] == f[35] && d[2] == f[36] && d[3] == f[37] && d[4] == f[38] && d[5]
        == f[39]);
    assert(f.skip(42) =~= d.skip(8));
    assert(IP@ =~= seq![10u8, 0, 2, 15]);
    assert(f.subrange(26, 34) =~= f.subrange(26, 30) + f.subrange(30, 34));
}

/// What a received datagram delivers: the bytes behind its first eight, as many as its
/// length field counts beyond these, from the port in bytes 0 and 1 to the one in
/// bytes 2 and 3. What lies behind that length is no part of it.
pub proof fn law_padding_is_dropped(
    s: StackView,
    src: [u8; 4],
    h: Seq<u8>,
    data: Seq<u8>,
    padding: Seq<u8>,
    sport: u16,
    dport: u16,
)
    requires
        h.len() == 8,
        h[0] * 256 + h[1] == sport,
        h[2] * 256 + h[3] == dport,
        h[4] * 256 + h[5] == 8 + data.len(),
    ensures
        handled(s, src, h + data + padding) == socket::delivered(
            s.logged(Event::UdpReceived { src, sport, dport, len: data.len() as usize }),
            dport,
            src,
            sport,
            data,
        ),
{
    let d = h + data + padding;
    assert(d[0] == h[0] && d[1] == h[1] && d[2] == h[2] && d[3] == h[3] && d[4] == h[4] && d[5]
        == h[5]);
    assert(data_of(d) =~= data);
}

/// The length field is not trusted: one that counts less than the header gives no
/// data, and one that counts more than there is gives what there is.
pub proof fn law_length_field_is_bounded(h: Seq<u8>, rest: Seq<u8>)
    requires
        h.len() == 8,
    ensures
        h[4] * 256 + h[5] <= 8 ==> data_of(h + rest) == Seq::<u8>::empty(),
        h[4] * 256 + h[5] >= 8 + rest.len() ==> data_of(h + rest) == rest,
{
    let d = h + rest;
    assert(d[4] == h[4] && d[5] == h[5]);
    if h[4] * 256 + h[5] <= 8 {
        assert(data_of(d) =~= Seq::<u8>::empty());
    }
    if h[4] * 256 + h[5] >= 8 + rest.len() {
        assert(data_of(d) =~= rest);
    }
}

} // verus!
