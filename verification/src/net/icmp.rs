//! ICMP: just enough of echo request/reply to power `ping`.
//!
//! Echo message layout: `type[1] code[1] checksum[2] id[2] seq[2] data...`.
//! The checksum covers the whole ICMP message (checksum field zeroed first).
use vstd::prelude::*;
use super::ethernet::{self, MacAddr, ETHERTYPE_IP};
use super::ip::{self, PROTO_ICMP};
use super::{checksum, checksum_of, law_filled_checksum_verifies, sent_frame, Event, Stack, StackView, GATEWAY};
use crate::bytes::{be16, extend, push_u16, put_u16, u16_at, u16_bytes, with_u16};

verus! {

pub const ECHO_REPLY: u8 = 0;

pub const ECHO_REQUEST: u8 = 8;

/// `m` with its checksum field filled in, whatever the field held.
pub open spec fn checked(m: Seq<u8>) -> Seq<u8> {
    let blank = with_u16(m, 2, 0);
    with_u16(blank, 2, checksum_of(blank))
}

/// The echo request with this identity and data.
pub open spec fn request_of(id: u16, seq: u16, payload: Seq<u8>) -> Seq<u8> {
    checked(seq![ECHO_REQUEST, 0, 0, 0] + u16_bytes(id) + u16_bytes(seq) + payload)
}

/// Build an ICMP echo *request* (what `ping` sends).
pub fn echo_request(id: u16, seq: u16, payload: &[u8]) -> (m: Vec<u8>)
    ensures
        m@ == request_of(id, seq, payload@),
{
    let mut m: Vec<u8> = Vec::new();
    m.push(ECHO_REQUEST);
    m.push(0);
    push_u16(&mut m, 0);
    push_u16(&mut m, id);
    push_u16(&mut m, seq);
    extend(&mut m, payload);
    let ghost raw = seq![ECHO_REQUEST, 0, 0, 0] + u16_bytes(id) + u16_bytes(seq) + payload@;
    assert(m@ =~= with_u16(raw, 2, 0));
    let cks: u16 = checksum(m.as_slice());
    assert(m.len() >= 4);
    put_u16(&mut m, 2, cks);
    m
}

/// A message with its identifier and its sequence number swapped; one that is too
/// short to hold both has none to swap.
pub open spec fn swapped(m: Seq<u8>) -> Seq<u8> {
    if m.len() < 8 {
        m
    } else {
        m.update(4, m[6]).update(5, m[7]).update(6, m[4]).update(7, m[5])
    }
}

/// The reply to an echo request: the type becomes "reply", the code zero,
/// identifier and sequence number are swapped, the data stays, and the checksum is
/// computed anew.
pub open spec fn reply_of(req: Seq<u8>) -> Seq<u8> {
    checked(swapped(req).update(0, ECHO_REPLY).update(1, 0))
}

/// Turn an inbound echo *request* into the matching *reply* (swap id/seq, keep
/// data).
pub fn echo_reply(req: &[u8]) -> (m: Vec<u8>)
    requires
        req@.len() >= 4,
    ensures
        m@ == reply_of(req@),
{
    let mut m: Vec<u8> = Vec::new();
    extend(&mut m, req);
    assert(m@ =~= req@);
    assert(m.len() >= 4);
    if req.len() >= 8 {
        m[4] = req[6];
        m[5] = req[7];
        m[6] = req[4];
        m[7] = req[5];
    }
    assert(m@ =~= swapped(req@));
    m[0] = ECHO_REPLY;
    m[1] = 0;
    m[2] = 0;
    m[3] = 0;
    let cks: u16 = checksum(m.as_slice());
    put_u16(&mut m, 2, cks);
    m
}

/// What receiving the ICMP message `msg` from `src` does to the stack.
pub open spec fn handled(s: StackView, src: [u8; 4], msg: Seq<u8>) -> StackView {
    if msg.len() < 8 {
        s
    } else if msg[0] == ECHO_REQUEST {
        ip::sent(
            s.logged(Event::EchoRequest { src, data: (msg.len() - 8) as usize }),
            src,
            PROTO_ICMP,
            reply_of(msg),
        )
    } else if msg[0] == ECHO_REPLY {
        s.logged(Event::EchoReply { src, id: u16_at(msg, 4), seq: u16_at(msg, 6) })
    } else {
        s.logged(Event::UnhandledControl(msg[0]))
    }
}

/// Handle an ICMP message: answer echo requests, report echo replies.
pub fn handle(s: &mut Stack, src: [u8; 4], msg: &[u8])
    ensures
        final(s)@ == handled(old(s)@, src, msg@),
{
    if msg.len() < 8 {
        return;
    }
    match msg[0] {
        ECHO_REQUEST => {
            s.log(Event::EchoRequest { src, data: msg.len() - 8 });
            let reply = echo_reply(msg);
            ip::send(s, src, PROTO_ICMP, reply.as_slice());
        },
        ECHO_REPLY => {
            let id: u16 = be16(msg, 4);
            let seq: u16 = be16(msg, 6);
            s.log(Event::EchoReply { src, id, seq });
        },
        t => s.log(Event::UnhandledControl(t)),
    }
}

/// The data bytes of every ping: `simplelinux-ping`.
pub open spec fn ping_data() -> Seq<u8> {
    seq![
        0x73, 0x69, 0x6d, 0x70, 0x6c, 0x65, 0x6c, 0x69, 0x6e, 0x75, 0x78, 0x2d, 0x70, 0x69, 0x6e,
        0x67,
    ]
}

/// What pinging `dst` does to the stack.
pub open spec fn pinged(s: StackView, dst: [u8; 4], seq: u16) -> StackView {
    let req = request_of(0x5f, seq, ping_data());
    ip::sent(s.logged(Event::Ping { dst, seq, len: req.len() as usize }), dst, PROTO_ICMP, req)
}

/// Send one ICMP echo request to `dst` (the outbound half of `ping`).
pub fn ping(s: &mut Stack, dst: [u8; 4], seq: u16)
    ensures
        final(s)@ == pinged(old(s)@, dst, seq),
{
    let data: [u8; 16] = [
        0x73, 0x69, 0x6d, 0x70, 0x6c, 0x65, 0x6c, 0x69, 0x6e, 0x75, 0x78, 0x2d, 0x70, 0x69, 0x6e,
        0x67,
    ];
    assert(data@ =~= ping_data());
    let req = echo_request(0x5f, seq, data.as_slice());
    s.log(Event::Ping { dst, seq, len: req.len() });
    ip::send(s, dst, PROTO_ICMP, req.as_slice());
}

/// Every echo request, and every reply to a message, checks out: the checksum
/// over the whole message is zero.
pub proof fn law_echo_checksums_verify(id: u16, seq: u16, payload: Seq<u8>, req: Seq<u8>)
    requires
        req.len() >= 4,
    ensures
        checksum_of(request_of(id, seq, payload)) == 0,
        checksum_of(reply_of(req)) == 0,
{
    let raw = seq![ECHO_REQUEST, 0, 0, 0] + u16_bytes(id) + u16_bytes(seq) + payload;
    law_filled_checksum_verifies(with_u16(raw, 2, 0), 2);
    let rep = swapped(req).update(0, ECHO_REPLY).update(1, 0);
    law_filled_checksum_verifies(with_u16(rep, 2, 0), 2);
}

/// A reply has the length of its request, identifier and sequence number swapped,
/// and the same data.
pub proof fn law_reply_echoes_request(req: Seq<u8>)
    requires
        req.len() >= 8,
    ensures
        reply_of(req).len() == req.len(),
        reply_of(req)[0] == ECHO_REPLY,
        reply_of(req)[1] == 0,
        u16_at(reply_of(req), 4) == u16_at(req, 6),
        u16_at(reply_of(req), 6) == u16_at(req, 4),
        reply_of(req).skip(8) == req.skip(8),
{
    assert(reply_of(req).skip(8) =~= req.skip(8));
}

/// A reply that was made from a request is reported with the request's sequence
/// number as identifier and its identifier as sequence number.
pub proof fn law_ping_is_reported(s: StackView, src: [u8; 4], id: u16, seq: u16, payload: Seq<u8>)
    ensures
        handled(s, src, reply_of(request_of(id, seq, payload))) == s.logged(
            Event::EchoReply { src, id: seq, seq: id },
        ),
{
    let req = request_of(id, seq, payload);
    law_reply_echoes_request(req);
    assert(u16_at(req, 4) == id);
    assert(u16_at(req, 6) == seq);
}

/// Handling an ICMP message leaves the receive ring and the sockets alone.
pub proof fn lemma_keeps_ring(s: StackView, src: [u8; 4], msg: Seq<u8>)
    ensures
        s.same_ring(handled(s, src, msg)),
{
}

/// The request of the self test: identifier 7, sequence number 1, data `hi`.
pub open spec fn demo_request() -> Seq<u8> {
    request_of(7, 1, seq![0x68, 0x69])
}

/// Self-test: build a request, turn it into a reply, verify both checksums, and
/// handle the request as if the gateway had sent it. Returns whether the
/// request's checksum is right, the type of the reply, and whether the reply's
/// checksum is right.
pub fn demo(s: &mut Stack) -> (r: (bool, u8, bool))
    ensures
        r == (true, ECHO_REPLY, true),
        final(s)@ == handled(old(s)@, GATEWAY, demo_request()),
{
    let data: [u8; 2] = [0x68, 0x69];
    assert(data@ =~= seq![0x68u8, 0x69]);
    let req = echo_request(7, 1, data.as_slice());
    proof {
        law_echo_checksums_verify(7, 1, data@, req@);
        law_reply_echoes_request(req@);
    }
    let request_ok = checksum(req.as_slice()) == 0;
    let reply = echo_reply(req.as_slice());
    let reply_ok = checksum(reply.as_slice()) == 0;
    let kind: u8 = reply[0];
    handle(s, GATEWAY, req.as_slice());
    (request_ok, kind, reply_ok)
}

/// An echo request that arrives in an Ethernet frame is answered to its source with
/// the matching reply, as long as the packet's length fits in the length field.
pub proof fn law_frame_with_request_is_answered(
    s: StackView,
    to: MacAddr,
    from: MacAddr,
    src: [u8; 4],
    dst: [u8; 4],
    id: u16,
    seq: u16,
    payload: Seq<u8>,
)
    requires
        payload.len() + 8 + ip::HEADER_LEN <= 0xffff,
    ensures
        ({
            let req = request_of(id, seq, payload);
            let packet = ip::packet_of(PROTO_ICMP, src, dst, req);
            let len = payload.len() + 8 + ip::HEADER_LEN;
            ethernet::handled(s, ethernet::frame_of(to, from, ETHERTYPE_IP, packet)) == ip::sent(
                s.logged(Event::IpReceived { src, proto: PROTO_ICMP, len: len as usize }).logged(
                    Event::EchoRequest { src, data: payload.len() as usize },
                ),
                src,
                PROTO_ICMP,
                reply_of(req),
            )
        }),
{
    let req = request_of(id, seq, payload);
    assert(req.len() == payload.len() + 8);
    assert(req[0] == ECHO_REQUEST);
    ethernet::law_frame_carries_payload(s, to, from, ip::packet_of(PROTO_ICMP, src, dst, req));
    ip::law_packet_round_trip(s, PROTO_ICMP, src, dst, req);
}

/// Every byte of an echo request: type 8, code 0, identifier, sequence number, data,
/// and a checksum that makes the whole check out.
pub proof fn law_request_layout(id: u16, seq: u16, payload: Seq<u8>)
    ensures
        ({
            let m = request_of(id, seq, payload);
            &&& m.len() == 8 + payload.len()
            &&& m[0] == 8 && m[1] == 0
            &&& m[4] * 256 + m[5] == id
            &&& m[6] * 256 + m[7] == seq
            &&& m.skip(8) == payload
            &&& checksum_of(m) == 0
        }),
{
    let m = request_of(id, seq, payload);
    law_echo_checksums_verify(id, seq, payload, m);
    assert(m.skip(8) =~= payload);
}

/// Every byte of a reply, against those of its request: type and code zero, the two
/// numbers swapped, the data kept, and a checksum that makes the whole check out.
pub proof fn law_reply_layout(req: Seq<u8>)
    requires
        req.len() >= 8,
    ensures
        ({
            let m = reply_of(req);
            &&& m.len() == req.len()
            &&& m[0] == 0 && m[1] == 0
            &&& m[4] == req[6] && m[5] == req[7] && m[6] == req[4] && m[7] == req[5]
            &&& m.skip(8) == req.skip(8)
            &&& checksum_of(m) == 0
        }),
{
    law_echo_checksums_verify(0, 0, seq![], req);
    assert(reply_of(req).skip(8) =~= req.skip(8));
}

/// What messages do: type 8 is answered to its source, type 0 reported with the
/// numbers in bytes 4 to 7, and no other message puts anything on the wire.
pub proof fn law_messages_by_type(s: StackView, src: [u8; 4], msg: Seq<u8>)
    requires
        s.nic is Some,
    ensures
        msg.len() < 8 ==> handled(s, src, msg) == s,
        msg.len() >= 8 && msg[0] != 8 ==> handled(s, src, msg).nic == s.nic,
        msg.len() >= 8 && msg[0] == 0 ==> exists|id: u16, seq: u16|
            #![auto]
            handled(s, src, msg).events == s.events.push(Event::EchoReply { src, id, seq }) && id
                == msg[4] * 256 + msg[5] && seq == msg[6] * 256 + msg[7],
        msg.len() >= 8 && msg[0] == 8 ==> {
            let f = sent_frame(s.nic->0, handled(s, src, msg).nic->0);
            &&& f.subrange(30, 34) == src@
            &&& f[23] == 1
            &&& f[34] == 0 && f[35] == 0
            &&& f[38] == msg[6] && f[39] == msg[7] && f[40] == msg[4] && f[41] == msg[5]
            &&& f.skip(42) == msg.skip(8)
            &&& checksum_of(f.skip(34)) == 0
        },
{
    if msg.len() >= 8 && msg[0] == 0 {
        let id = u16_at(msg, 4);
        let seq = u16_at(msg, 6);
        assert(handled(s, src, msg).events == s.events.push(Event::EchoReply { src, id, seq }));
        assert(id == msg[4] * 256 + msg[5] && seq == msg[6] * 256 + msg[7]);
    }
    if msg.len() >= 8 && msg[0] == 8 {
        law_reply_layout(msg);
        let m = reply_of(msg);
        let seen = s.logged(Event::EchoRequest { src, data: (msg.len() - 8) as usize });
        ip::law_packet_on_the_wire(seen, src, PROTO_ICMP, m);
        let f = sent_frame(s.nic->0, handled(s, src, msg).nic->0);
        assert(f.skip(34) == m);
        assert(forall|i: int| 0 <= i < m.len() ==> #[trigger] f.skip(34)[i] == f[i + 34]);
        assert(m[0] == f[34] && m[1] == f[35] && m[4] == f[38] && m[5] == f[39] && m[6] == f[40]
            && m[7] == f[41]);
        assert(f.skip(42) =~= m.skip(8));
    }
}

/// The reply to a message that is too short for both numbers keeps what stands behind
/// the checksum.
pub proof fn law_short_reply(req: Seq<u8>)
    requires
        4 <= req.len() < 8,
    ensures
        reply_of(req).len() == req.len(),
        reply_of(req)[0] == 0 && reply_of(req)[1] == 0,
        reply_of(req).skip(4) == req.skip(4),
        checksum_of(reply_of(req)) == 0,
{
    law_echo_checksums_verify(0, 0, seq![], req);
    assert(reply_of(req).skip(4) =~= req.skip(4));
}

/// What a ping puts on the wire: an echo request to the destination with identifier
/// 0x5f, the sequence number, and sixteen bytes of data.
pub proof fn law_ping_on_the_wire(s: StackView, dst: [u8; 4], seq: u16)
    requires
        s.nic is Some,
    ensures
        ({
            let after = pinged(s, dst, seq);
            let f = sent_frame(s.nic->0, after.nic->0);
            &&& after.nic is Some
            &&& f.len() == 58
            &&& f.subrange(0, 6) == s.next_hop(dst).0@
            &&& f[23] == 1
            &&& f.subrange(26, 30) == seq![10u8, 0, 2, 15]
            &&& f.subrange(30, 34) == dst@
            &&& f[34] == 8 && f[35] == 0
            &&& f[38] == 0 && f[39] == 0x5f
            &&& f[40] * 256 + f[41] == seq
            &&& f.skip(42) == ping_data()
            &&& checksum_of(f.skip(34)) == 0
        }),
{
    let m = request_of(0x5f, seq, ping_data());
    law_request_layout(0x5f, seq, ping_data());
    let seen = s.logged(Event::Ping { dst, seq, len: 24 });
    ip::law_packet_on_the_wire(seen, dst, PROTO_ICMP, m);
    let f = sent_frame(s.nic->0, pinged(s, dst, seq).nic->0);
    assert(f.skip(34) == m);
    assert(forall|i: int| 0 <= i < m.len() ==> #[trigger] f.skip(34)[i] == f[i + 34]);
    assert(m[0] == f[34] && m[1] == f[35] && m[4] == f[38] && m[5] == f[39] && m[6] == f[40] && m[7]
        == f[41]);
    assert(f.skip(42) =~= m.skip(8));
}

/// What is reported of messages: a request with the number of its data bytes, and a
/// message of another type with that type.
pub proof fn law_messages_are_reported(s: StackView, src: [u8; 4], msg: Seq<u8>)
    requires
        8 <= msg.len() <= usize::MAX,
    ensures
        handled(s, src, msg).events.len() == s.events.len() + 1,
        match handled(s, src, msg).events.last() {
            Event::EchoRequest { src: from, data } => msg[0] == 8 && from == src && data + 8
                == msg.len(),
            Event::EchoReply { src: from, .. } => msg[0] == 0 && from == src,
            Event::UnhandledControl(t) => t == msg[0] && t != 8 && t != 0,
            _ => false,
        },
{
}

} // verus!
