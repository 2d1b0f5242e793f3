//! TCP: a deliberately minimal skeleton.
//!
//! The connection is an explicit [`TcpState`] state machine. A 20-byte header
//! with a pseudo-header checksum is built and parsed. Fixed MSS = 536, no
//! congestion control, no retransmit timer; a three-way handshake progresses for
//! a single inbound SYN.
use vstd::prelude::*;
use super::ip::{self, PROTO_TCP};
use super::{
    checksum, checksum_of, law_filled_checksum_verifies, pseudo_header, push_pseudo_header,
    sent_frame, Event, Stack, StackView, GATEWAY, IP,
};
use crate::bytes::{
    be16, be32, extend, law_big_endian, low16, push_u16, push_u32, put_u16, u16_at, u16_bytes, u32_at, u32_bytes,
    with_u16,
};

verus! {

/// MSS = 536 keeps every segment inside the 576-byte IPv4 minimum MTU.
pub const MSS: usize = 536;

pub const HEADER_LEN: usize = 20;

pub const FIN: u16 = 0x01;

pub const SYN: u16 = 0x02;

pub const RST: u16 = 0x04;

pub const ACK: u16 = 0x10;

/// The flags of the handshake's second segment.
pub const SYN_ACK: u16 = 0x12;

/// The connection lifecycle.
#[derive(Clone, Copy, PartialEq, Eq, Structural, Debug)]
pub enum TcpState {
    Closed,
    Listen,
    SynSent,
    SynReceived,
    Established,
    FinWait1,
    FinWait2,
    CloseWait,
    LastAck,
    TimeWait,
}

/// The name of a combination of flags.
pub open spec fn flags_name(f: u16) -> &'static str {
    if f & SYN != 0 && f & ACK == 0 && f & FIN == 0 && f & RST == 0 {
        "SYN"
    } else if f & SYN != 0 && f & ACK != 0 && f & FIN == 0 && f & RST == 0 {
        "SYN-ACK"
    } else if f & SYN == 0 && f & ACK != 0 && f & FIN == 0 && f & RST == 0 {
        "ACK"
    } else if f & SYN == 0 && f & ACK != 0 && f & FIN != 0 && f & RST == 0 {
        "FIN-ACK"
    } else if f & SYN == 0 && f & ACK == 0 && f & FIN == 0 && f & RST != 0 {
        "RST"
    } else {
        "?"
    }
}

/// Decode a segment's flags for a human-readable line.
pub fn flag_names(f: u16) -> (r: &'static str)
    ensures
        r == flags_name(f),
{
    match (f & SYN != 0, f & ACK != 0, f & FIN != 0, f & RST != 0) {
        (true, false, false, false) => "SYN",
        (true, true, false, false) => "SYN-ACK",
        (false, true, false, false) => "ACK",
        (false, true, true, false) => "FIN-ACK",
        (false, false, false, true) => "RST",
        _ => "?",
    }
}

/// The segment with a zero checksum field: five header words, a window of one
/// maximum segment, no urgent data.
pub open spec fn blank_segment(
    sport: u16,
    dport: u16,
    seq: u32,
    ack: u32,
    flags: u16,
    payload: Seq<u8>,
) -> Seq<u8> {
    u16_bytes(sport) + u16_bytes(dport) + u32_bytes(seq) + u32_bytes(ack) + u16_bytes(
        0x5000 | flags,
    ) + u16_bytes(536) + seq![0u8, 0, 0, 0] + payload
}

/// The length that the pseudo-header holds for `n` payload bytes: sixteen bits.
pub open spec fn length_field(n: nat) -> u16 {
    ((n + HEADER_LEN) % 0x1_0000) as u16
}

/// The segment with its checksum, which covers the pseudo-header too.
pub open spec fn segment_of(
    sport: u16,
    dport: u16,
    seq: u32,
    ack: u32,
    flags: u16,
    payload: Seq<u8>,
    dst: [u8; 4],
) -> Seq<u8> {
    let blank = blank_segment(sport, dport, seq, ack, flags, payload);
    let pseudo = pseudo_header(IP, dst, PROTO_TCP, length_field(payload.len()));
    with_u16(blank, 16, checksum_of(pseudo + blank))
}

/// Build a 20-byte TCP segment (payload appended) with a correct checksum.
pub fn segment(
    sport: u16,
    dport: u16,
    seq: u32,
    ack: u32,
    flags: u16,
    payload: &[u8],
    dst: [u8; 4],
) -> (t: Vec<u8>)
    ensures
        t@ == segment_of(sport, dport, seq, ack, flags, payload@, dst),
{
    let mut t: Vec<u8> = Vec::new();
    push_u16(&mut t, sport);
    push_u16(&mut t, dport);
    push_u32(&mut t, seq);
    push_u32(&mut t, ack);
    push_u16(&mut t, 0x5000 | flags);
    push_u16(&mut t, 536);
    push_u16(&mut t, 0);
    push_u16(&mut t, 0);
    extend(&mut t, payload);
    assert(t@ =~= blank_segment(sport, dport, seq, ack, flags, payload@));

    let mut pseudo: Vec<u8> = Vec::new();
    push_pseudo_header(&mut pseudo, IP, dst, PROTO_TCP, low16(payload.len(), HEADER_LEN));
    extend(&mut pseudo, t.as_slice());
    assert(pseudo@ =~= pseudo_header(IP, dst, PROTO_TCP, length_field(payload@.len())) + t@);
    let cks: u16 = checksum(pseudo.as_slice());
    assert(t.len() >= 20);
    put_u16(&mut t, 16, cks);
    t
}

/// Send a bare TCP segment.
pub fn send_segment(
    s: &mut Stack,
    sport: u16,
    dst: [u8; 4],
    dport: u16,
    seq: u32,
    ack: u32,
    flags: u16,
) -> (r: bool)
    ensures
        r == (old(s)@.nic is Some),
        final(s)@ == ip::sent(
            old(s)@,
            dst,
            PROTO_TCP,
            segment_of(sport, dport, seq, ack, flags, seq![], dst),
        ),
{
    let none: Vec<u8> = Vec::new();
    let t = segment(sport, dport, seq, ack, flags, none.as_slice(), dst);
    ip::send(s, dst, PROTO_TCP, t.as_slice())
}

/// Whether a segment with these flags opens a connection.
pub open spec fn opens(flags: u16) -> bool {
    flags & SYN != 0 && flags & ACK == 0
}

/// The number after `seq`, modulo 2^32.
pub open spec fn next_seq(seq: u32) -> u32 {
    ((seq + 1) % 0x1_0000_0000) as u32
}

/// What receiving the segment `t` from `src` does to the stack: a SYN is
/// answered by a SYN-ACK with the ports exchanged.
pub open spec fn handled(s: StackView, src: [u8; 4], t: Seq<u8>) -> StackView {
    if t.len() < HEADER_LEN {
        s
    } else {
        let sport = u16_at(t, 0);
        let dport = u16_at(t, 2);
        let seq = u32_at(t, 4);
        let flags = u16_at(t, 12);
        let seen = s.logged(
            Event::TcpReceived { src, sport, dport, flags, number: seq, ack: u32_at(t, 8) },
        );
        if opens(flags) {
            ip::sent(
                seen,
                src,
                PROTO_TCP,
                segment_of(dport, sport, 1000, next_seq(seq), SYN_ACK, seq![], src),
            ).logged(Event::TcpTransition { from: TcpState::Listen, to: TcpState::SynReceived, port: dport })
        } else {
            seen
        }
    }
}

/// Parse and describe an inbound segment; drive one listen->SYN-ACK step.
pub fn handle(s: &mut Stack, src: [u8; 4], t: &[u8])
    ensures
        final(s)@ == handled(old(s)@, src, t@),
{
    if t.len() < HEADER_LEN {
        return;
    }
    let sport: u16 = be16(t, 0);
    let dport: u16 = be16(t, 2);
    let seq: u32 = be32(t, 4);
    let ack: u32 = be32(t, 8);
    let flags: u16 = be16(t, 12);
    s.log(Event::TcpReceived { src, sport, dport, flags, number: seq, ack });
    if flags & SYN != 0 && flags & ACK == 0 {
        send_segment(s, dport, src, sport, 1000, seq.wrapping_add(1), SYN_ACK);
        s.log(Event::TcpTransition { from: TcpState::Listen, to: TcpState::SynReceived, port: dport });
    }
}

/// Every segment that is built checks out together with its pseudo-header.
pub proof fn law_segment_checksum_verifies(
    sport: u16,
    dport: u16,
    seq: u32,
    ack: u32,
    flags: u16,
    payload: Seq<u8>,
    dst: [u8; 4],
)
    ensures
        checksum_of(
            pseudo_header(IP, dst, PROTO_TCP, length_field(payload.len())) + segment_of(
                sport,
                dport,
                seq,
                ack,
                flags,
                payload,
                dst,
            ),
        ) == 0,
{
    let blank = blank_segment(sport, dport, seq, ack, flags, payload);
    let pseudo = pseudo_header(IP, dst, PROTO_TCP, length_field(payload.len()));
    let c = checksum_of(pseudo + blank);
    assert(pseudo.len() == 12);
    assert(pseudo + with_u16(blank, 16, c) =~= with_u16(pseudo + blank, 28, c));
    law_filled_checksum_verifies(pseudo + blank, 28);
}

/// Where the fields of a segment lie.
proof fn lemma_segment_bytes(
    sport: u16,
    dport: u16,
    seq: u32,
    ack: u32,
    flags: u16,
    payload: Seq<u8>,
    dst: [u8; 4],
)
    ensures
        ({
            let t = segment_of(sport, dport, seq, ack, flags, payload, dst);
            &&& t.len() == HEADER_LEN + payload.len()
            &&& t[0] == u16_bytes(sport)[0] && t[1] == u16_bytes(sport)[1]
            &&& t[2] == u16_bytes(dport)[0] && t[3] == u16_bytes(dport)[1]
            &&& t[4] == u32_bytes(seq)[0] && t[5] == u32_bytes(seq)[1]
            &&& t[6] == u32_bytes(seq)[2] && t[7] == u32_bytes(seq)[3]
            &&& t[8] == u32_bytes(ack)[0] && t[9] == u32_bytes(ack)[1]
            &&& t[10] == u32_bytes(ack)[2] && t[11] == u32_bytes(ack)[3]
            &&& t[12] == u16_bytes(0x5000 | flags)[0] && t[13] == u16_bytes(0x5000 | flags)[1]
            &&& t[14] == u16_bytes(536)[0] && t[15] == u16_bytes(536)[1]
            &&& t[18] == 0 && t[19] == 0
            &&& t.skip(HEADER_LEN as int) == payload
        }),
{
    let t = segment_of(sport, dport, seq, ack, flags, payload, dst);
    assert(t.skip(20) =~= payload);
}

/// A segment that was built from fields is decoded to the same fields; the flags
/// come with the header length in the top bits.
pub proof fn law_segment_round_trip(
    sport: u16,
    dport: u16,
    seq: u32,
    ack: u32,
    flags: u16,
    payload: Seq<u8>,
    dst: [u8; 4],
)
    ensures
        segment_of(sport, dport, seq, ack, flags, payload, dst).len() == HEADER_LEN + payload.len(),
        u16_at(segment_of(sport, dport, seq, ack, flags, payload, dst), 0) == sport,
        u16_at(segment_of(sport, dport, seq, ack, flags, payload, dst), 2) == dport,
        u32_at(segment_of(sport, dport, seq, ack, flags, payload, dst), 4) == seq,
        u32_at(segment_of(sport, dport, seq, ack, flags, payload, dst), 8) == ack,
        u16_at(segment_of(sport, dport, seq, ack, flags, payload, dst), 12) == 0x5000 | flags,
        opens(0x5000 | flags) == opens(flags),
        segment_of(sport, dport, seq, ack, flags, payload, dst).skip(HEADER_LEN as int) == payload,
{
    let t = segment_of(sport, dport, seq, ack, flags, payload, dst);
    lemma_segment_bytes(sport, dport, seq, ack, flags, payload, dst);
    law_big_endian(sport, seq, t, 0);
    law_big_endian(dport, seq, t, 2);
    law_big_endian(sport, seq, t, 4);
    law_big_endian(sport, ack, t, 8);
    law_big_endian(0x5000 | flags, ack, t, 12);
    assert((0x5000u16 | flags) & 2 == flags & 2) by (bit_vector);
    assert((0x5000u16 | flags) & 0x10 == flags & 0x10) by (bit_vector);
}

/// Handling a segment leaves the receive ring and the sockets alone.
pub proof fn lemma_keeps_ring(s: StackView, src: [u8; 4], t: Seq<u8>)
    ensures
        s.same_ring(handled(s, src, t)),
{
}

/// The segment of the self test: a SYN for port 80.
pub open spec fn demo_segment() -> Seq<u8> {
    blank_segment(51000, 80, 777, 0, SYN, seq![])
}

/// Self-test: run a synthetic inbound SYN from the gateway through the parser and
/// the handshake step.
pub fn demo(s: &mut Stack)
    ensures
        final(s)@ == handled(old(s)@, GATEWAY, demo_segment()),
{
    let mut seg: Vec<u8> = Vec::new();
    push_u16(&mut seg, 51000);
    push_u16(&mut seg, 80);
    push_u32(&mut seg, 777);
    push_u32(&mut seg, 0);
    push_u16(&mut seg, 0x5000 | SYN);
    push_u16(&mut seg, 536);
    push_u16(&mut seg, 0);
    push_u16(&mut seg, 0);
    assert(seg@ =~= demo_segment());
    handle(s, GATEWAY, seg.as_slice());
}

/// A segment that opens a connection is answered to its sender with a segment
/// that has both flags set, the ports exchanged, and the next expected number; no
/// other segment is answered.
pub proof fn law_syn_is_answered(s: StackView, src: [u8; 4], t: Seq<u8>)
    requires
        t.len() >= HEADER_LEN,
        s.nic is Some,
    ensures
        ({
            let seen = s.logged(
                Event::TcpReceived {
                    src,
                    sport: u16_at(t, 0),
                    dport: u16_at(t, 2),
                    flags: u16_at(t, 12),
                    number: u32_at(t, 4),
                    ack: u32_at(t, 8),
                },
            );
            if opens(u16_at(t, 12)) {
                handled(s, src, t).nic == ip::sent(
                    seen,
                    src,
                    PROTO_TCP,
                    segment_of(
                        u16_at(t, 2),
                        u16_at(t, 0),
                        1000,
                        next_seq(u32_at(t, 4)),
                        SYN_ACK,
                        seq![],
                        src,
                    ),
                ).nic
            } else {
                handled(s, src, t).nic == s.nic
            }
        }),
{
}

/// Every byte of a segment that fits: ports, numbers, a header of five words with the
/// flags, a window of 536, no urgent data, the payload, and a checksum that makes the
/// segment check out behind the twelve bytes of the two addresses, a zero, 6, and its
/// length.
pub proof fn law_segment_layout(
    sport: u16,
    dport: u16,
    seq: u32,
    ack: u32,
    flags: u16,
    payload: Seq<u8>,
    dst: [u8; 4],
)
    requires
        payload.len() + 20 <= 65535,
    ensures
        ({
            let t = segment_of(sport, dport, seq, ack, flags, payload, dst);
            let length = t.len() as int;
            &&& length == 20 + payload.len()
            &&& t[0] * 256 + t[1] == sport
            &&& t[2] * 256 + t[3] == dport
            &&& t[4] * 0x100_0000 + t[5] * 0x1_0000 + t[6] * 256 + t[7] == seq
            &&& t[8] * 0x100_0000 + t[9] * 0x1_0000 + t[10] * 256 + t[11] == ack
            &&& flags < 0x1000 ==> t[12] * 256 + t[13] == 0x5000 + flags
            &&& t[14] * 256 + t[15] == 536
            &&& t[18] == 0 && t[19] == 0
            &&& t.skip(20) == payload
            &&& checksum_of(
                seq![10u8, 0, 2, 15] + dst@ + seq![
                    0u8,
                    6u8,
                    (length / 256) as u8,
                    (length % 256) as u8,
                ] + t,
            ) == 0
        }),
{
    let t = segment_of(sport, dport, seq, ack, flags, payload, dst);
    let length = t.len() as int;
    law_segment_round_trip(sport, dport, seq, ack, flags, payload, dst);
    law_segment_checksum_verifies(sport, dport, seq, ack, flags, payload, dst);
    assert(length_field(payload.len()) == length);
    assert(pseudo_header(IP, dst, PROTO_TCP, length_field(payload.len())) =~= seq![10u8, 0, 2, 15]
        + dst@ + seq![0u8, 6u8, (length / 256) as u8, (length % 256) as u8]);
    assert(flags < 0x1000 ==> (0x5000u16 | flags) == 0x5000 + flags) by (bit_vector);
    lemma_segment_bytes(sport, dport, seq, ack, flags, payload, dst);
}

/// The flags SYN and ACK of the segment `t`, by the weights 2 and 16.
proof fn lemma_opening_flags(t: Seq<u8>)
    requires
        t.len() >= 20,
    ensures
        opens(u16_at(t, 12)) == (t[13] / 2 % 2 == 1 && t[13] / 16 % 2 == 0),
{
    let flags = u16_at(t, 12);
    let hi = t[12] as u16;
    let lo = t[13] as u16;
    assert(flags == hi * 256 + lo);
    assert((flags & 2 != 0) == (lo / 2 % 2 == 1)) by (bit_vector)
        requires
            flags == hi * 256 + lo,
            hi < 256,
            lo < 256,
    ;
    assert((flags & 0x10 == 0) == (lo / 16 % 2 == 0)) by (bit_vector)
        requires
            flags == hi * 256 + lo,
            hi < 256,
            lo < 256,
    ;
}

/// Where the fields of a bare segment lie in the frame that takes it out.
proof fn lemma_segment_on_the_wire(
    s: StackView,
    sport: u16,
    dst: [u8; 4],
    dport: u16,
    seq: u32,
    ack: u32,
    flags: u16,
)
    requires
        s.nic is Some,
        flags < 0x1000,
    ensures
        ({
            let g = segment_of(sport, dport, seq, ack, flags, seq![], dst);
            let after = ip::sent(s, dst, PROTO_TCP, g);
            let f = sent_frame(s.nic->0, after.nic->0);
            &&& after.nic is Some
            &&& f.len() == 54
            &&& f.subrange(0, 6) == s.next_hop(dst).0@
            &&& f[23] == 6
            &&& f.subrange(26, 30) == seq![10u8, 0, 2, 15]
            &&& f.subrange(30, 34) == dst@
            &&& f[34] * 256 + f[35] == sport
            &&& f[36] * 256 + f[37] == dport
            &&& f[38] * 0x100_0000 + f[39] * 0x1_0000 + f[40] * 256 + f[41] == seq
            &&& f[42] * 0x100_0000 + f[43] * 0x1_0000 + f[44] * 256 + f[45] == ack
            &&& f[46] * 256 + f[47] == 0x5000 + flags
            &&& checksum_of(f.subrange(26, 34) + seq![0u8, 6u8, 0u8, 20u8] + f.skip(34)) == 0
        }),
{
    let g = segment_of(sport, dport, seq, ack, flags, seq![], dst);
    law_segment_layout(sport, dport, seq, ack, flags, seq![], dst);
    ip::law_packet_on_the_wire(s, dst, PROTO_TCP, g);
    let f = sent_frame(s.nic->0, ip::sent(s, dst, PROTO_TCP, g).nic->0);
    assert(f.skip(34) == g);
    assert(forall|i: int| 0 <= i < g.len() ==> #[trigger] f.skip(34)[i] == f[i + 34]);
    assert(g[0] == f[34] && g[1] == f[35] && g[2] == f[36] && g[3] == f[37]);
    assert(g[4] == f[38] && g[5] == f[39] && g[6] == f[40] && g[7] == f[41]);
    assert(g[8] == f[42] && g[9] == f[43] && g[10] == f[44] && g[11] == f[45]);
    assert(g[12] == f[46] && g[13] == f[47]);
    assert(f.subrange(26, 34) =~= f.subrange(26, 30) + f.subrange(30, 34));
    assert(g.len() == 20);
    assert((20int / 256) as u8 == 0u8 && (20int % 256) as u8 == 20u8);
}

/// The answer to a segment on the wire. A segment with the SYN flag and without the
/// ACK flag is answered to its source: ports exchanged, both flags set, and as
/// acknowledgment number the segment's own number plus one, or zero behind the last.
/// Any other segment is not answered.
#[verifier::rlimit(40)]
pub proof fn law_handshake_on_the_wire(s: StackView, src: [u8; 4], t: Seq<u8>)
    requires
        t.len() >= 20,
        s.nic is Some,
    ensures
        ({
            let after = handled(s, src, t);
            let f = sent_frame(s.nic->0, after.nic->0);
            let number = t[4] * 0x100_0000 + t[5] * 0x1_0000 + t[6] * 256 + t[7];
            let answer = f[42] * 0x100_0000 + f[43] * 0x1_0000 + f[44] * 256 + f[45];
            if t[13] / 2 % 2 == 1 && t[13] / 16 % 2 == 0 {
                &&& after.nic is Some
                &&& f.len() == 54
                &&& f.subrange(0, 6) == s.next_hop(src).0@
                &&& f[23] == 6
                &&& f.subrange(26, 30) == seq![10u8, 0, 2, 15]
                &&& f.subrange(30, 34) == src@
                &&& f[34] * 256 + f[35] == t[2] * 256 + t[3]
                &&& f[36] * 256 + f[37] == t[0] * 256 + t[1]
                &&& number < 0xffff_ffff ==> answer == number + 1
                &&& number == 0xffff_ffff ==> answer == 0
                &&& f[38] * 0x100_0000 + f[39] * 0x1_0000 + f[40] * 256 + f[41] == 1000
                &&& f[46] * 256 + f[47] == 0x5012
                &&& checksum_of(f.subrange(26, 34) + seq![0u8, 6u8, 0u8, 20u8] + f.skip(34)) == 0
            } else {
                after.nic == s.nic
            }
        }),
{
    let flags = u16_at(t, 12);
    lemma_opening_flags(t);
    if opens(flags) {
        let sport = u16_at(t, 0);
        let dport = u16_at(t, 2);
        let seq = u32_at(t, 4);
        law_big_endian(0, 0, t, 0);
        law_big_endian(0, 0, t, 2);
        law_big_endian(0, 0, t, 4);
        let seen = s.logged(
            Event::TcpReceived { src, sport, dport, flags, number: seq, ack: u32_at(t, 8) },
        );
        lemma_segment_on_the_wire(seen, dport, src, sport, 1000, next_seq(seq), SYN_ACK);
    }
}

/// Which flags have names, by their weights: SYN 2, ACK 16, FIN 1, RST 4.
pub proof fn law_flag_names(f: u16)
    ensures
        f / 2 % 2 == 1 && f / 16 % 2 == 0 && f % 2 == 0 && f / 4 % 2 == 0 ==> flags_name(f) == "SYN",
        f / 2 % 2 == 1 && f / 16 % 2 == 1 && f % 2 == 0 && f / 4 % 2 == 0 ==> flags_name(f)
            == "SYN-ACK",
        f / 2 % 2 == 0 && f / 16 % 2 == 1 && f % 2 == 0 && f / 4 % 2 == 0 ==> flags_name(f) == "ACK",
        f / 2 % 2 == 0 && f / 16 % 2 == 1 && f % 2 == 1 && f / 4 % 2 == 0 ==> flags_name(f)
            == "FIN-ACK",
        f / 2 % 2 == 0 && f / 16 % 2 == 0 && f % 2 == 0 && f / 4 % 2 == 1 ==> flags_name(f) == "RST",
{
    assert((f & 2 != 0) == (f / 2 % 2 == 1)) by (bit_vector);
    assert((f & 16 != 0) == (f / 16 % 2 == 1)) by (bit_vector);
    assert((f & 1 != 0) == (f % 2 == 1)) by (bit_vector);
    assert((f & 4 != 0) == (f / 4 % 2 == 1)) by (bit_vector);
}

/// What is reported of a segment: the numbers that its bytes hold, and nothing of one
/// that is shorter than a header.
pub proof fn law_segment_is_reported(s: StackView, src: [u8; 4], t: Seq<u8>)
    ensures
        t.len() < 20 ==> handled(s, src, t) == s,
        t.len() >= 20 ==> match handled(s, src, t).events[s.events.len() as int] {
            Event::TcpReceived { src: from, sport, dport, flags, number, ack } => {
                &&& from == src
                &&& sport == t[0] * 256 + t[1]
                &&& dport == t[2] * 256 + t[3]
                &&& number == t[4] * 0x100_0000 + t[5] * 0x1_0000 + t[6] * 256 + t[7]
                &&& ack == t[8] * 0x100_0000 + t[9] * 0x1_0000 + t[10] * 256 + t[11]
                &&& flags == t[12] * 256 + t[13]
            },
            _ => false,
        },
{
    law_big_endian(0, 0, t, 0);
    law_big_endian(0, 0, t, 2);
    law_big_endian(0, 0, t, 4);
    law_big_endian(0, 0, t, 8);
    law_big_endian(0, 0, t, 12);
    if t.len() >= 20 {
        let e = Event::TcpReceived {
            src,
            sport: u16_at(t, 0),
            dport: u16_at(t, 2),
            flags: u16_at(t, 12),
            number: u32_at(t, 4),
            ack: u32_at(t, 8),
        };
        assert(handled(s, src, t).events[s.events.len() as int] == e);
    }
}

} // verus!
