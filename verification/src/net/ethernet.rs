//! Ethernet II: the 14-byte link-layer header and EtherType demultiplexing.
//!
//! Frame layout: `dst[6] src[6] type[2] payload...`. The device computes the
//! frame check sequence on transmission and strips it on reception.
use vstd::prelude::*;
use super::{arp, ip, Event, Stack, StackView};
use crate::bytes::{be16, extend, push_u16, u16_at, u16_bytes};

verus! {

/// A 48-bit MAC address, kept as a newtype so it never confuses with an IPv4
/// `[u8; 4]` at the type level.
#[derive(Clone, Copy, PartialEq, Eq, Debug)]
pub struct MacAddr(pub [u8; 6]);

pub const ETHERTYPE_ARP: u16 = 0x0806;

pub const ETHERTYPE_IP: u16 = 0x0800;

pub const HEADER_LEN: usize = 14;

/// The lower-case hexadecimal digit for `d`, one of `0..16`.
pub open spec fn hex_digit(d: int) -> u8 {
    if d < 10 {
        (0x30 + d) as u8
    } else {
        (0x61 + d - 10) as u8
    }
}

/// `aa:bb:cc:dd:ee:ff`: two digits per byte, colons in between.
pub open spec fn mac_text(mac: Seq<u8>) -> Seq<u8> {
    Seq::new(
        17,
        |i: int|
            if i % 3 == 0 {
                hex_digit(mac[i / 3] as int / 16)
            } else if i % 3 == 1 {
                hex_digit(mac[i / 3] as int % 16)
            } else {
                0x3a
            },
    )
}

fn hex(d: u8) -> (r: u8)
    requires
        d < 16,
    ensures
        r == hex_digit(d as int),
{
    if d < 10 {
        0x30 + d
    } else {
        0x61 + (d - 10)
    }
}

impl MacAddr {
    /// The bytes of the address that every host listens to.
    pub const BROADCAST: [u8; 6] = [0xff, 0xff, 0xff, 0xff, 0xff, 0xff];

    /// `aa:bb:cc:dd:ee:ff` rendering helper for the built-in commands.
    pub fn fmt(&self) -> (out: Vec<u8>)
        ensures
            out@ == mac_text(self.0@),
    {
        let mut out: Vec<u8> = Vec::with_capacity(17);
        let mut i: usize = 0;
        while i < 6
            invariant
                i <= 6,
                out@.len() == if i == 0 {
                    0
                } else {
                    3 * i - 1
                },
                forall|j: int| 0 <= j < out@.len() ==> out@[j] == mac_text(self.0@)[j],
            decreases 6 - i,
        {
            if i > 0 {
                out.push(0x3a);
            }
            let b: u8 = self.0[i];
            out.push(hex(b / 16));
            out.push(hex(b % 16));
            i = i + 1;
        }
        assert(out@ =~= mac_text(self.0@));
        out
    }
}

/// An Ethernet frame: header, then payload.
pub open spec fn frame_of(dst: MacAddr, src: MacAddr, ethertype: u16, payload: Seq<u8>) -> Seq<u8> {
    dst.0@ + src.0@ + u16_bytes(ethertype) + payload
}

/// Build a complete Ethernet frame (header + payload copy).
pub fn frame(dst: MacAddr, src: MacAddr, ethertype: u16, payload: &[u8]) -> (f: Vec<u8>)
    ensures
        f@ == frame_of(dst, src, ethertype, payload@),
{
    let mut f: Vec<u8> = Vec::new();
    extend(&mut f, dst.0.as_slice());
    extend(&mut f, src.0.as_slice());
    push_u16(&mut f, ethertype);
    extend(&mut f, payload);
    assert(f@ =~= frame_of(dst, src, ethertype, payload@));
    f
}

/// What receiving `frame` does to the stack.
pub open spec fn handled(s: StackView, frame: Seq<u8>) -> StackView {
    if frame.len() < HEADER_LEN {
        s
    } else {
        let ethertype = u16_at(frame, 12);
        let payload = frame.skip(HEADER_LEN as int);
        if ethertype == ETHERTYPE_ARP {
            arp::handled(s, payload)
        } else if ethertype == ETHERTYPE_IP {
            ip::handled(s, payload)
        } else {
            s.logged(Event::UnknownEtherType { ethertype, len: payload.len() as usize })
        }
    }
}

/// Whether `frame` is free of an IPv4 header that is longer than its packet.
pub open spec fn decodable(frame: Seq<u8>) -> bool {
    frame.len() >= HEADER_LEN && u16_at(frame, 12) == ETHERTYPE_IP ==> ip::sliceable(
        frame.skip(HEADER_LEN as int),
    )
}

/// Whether [`handle`] can take `frame`.
pub fn accepts(frame: &[u8]) -> (r: bool)
    ensures
        r == decodable(frame@),
{
    if frame.len() >= HEADER_LEN && be16(frame, 12) == ETHERTYPE_IP {
        ip::accepts(vstd::slice::slice_subrange(frame, HEADER_LEN, frame.len()))
    } else {
        true
    }
}

/// Decode one inbound frame and hand the payload to the right L3 protocol.
pub fn handle(s: &mut Stack, frame: &[u8])
    requires
        decodable(frame@),
    ensures
        final(s)@ == handled(old(s)@, frame@),
{
    if frame.len() < HEADER_LEN {
        return;
    }
    let ethertype: u16 = be16(frame, 12);
    let payload = vstd::slice::slice_subrange(frame, HEADER_LEN, frame.len());
    match ethertype {
        ETHERTYPE_ARP => arp::handle(s, payload),
        ETHERTYPE_IP => ip::handle(s, payload),
        other => s.log(Event::UnknownEtherType { ethertype: other, len: payload.len() }),
    }
}

/// Receiving a frame that was built around a payload hands exactly that payload
/// to the protocol that the frame names.
pub proof fn law_frame_carries_payload(s: StackView, dst: MacAddr, src: MacAddr, payload: Seq<u8>)
    ensures
        handled(s, frame_of(dst, src, ETHERTYPE_ARP, payload)) == arp::handled(s, payload),
        handled(s, frame_of(dst, src, ETHERTYPE_IP, payload)) == ip::handled(s, payload),
{
    let a = frame_of(dst, src, ETHERTYPE_ARP, payload);
    assert(a.skip(14) =~= payload);
    let b = frame_of(dst, src, ETHERTYPE_IP, payload);
    assert(b.skip(14) =~= payload);
}

/// Handling a frame leaves the receive ring alone.
pub proof fn lemma_keeps_ring(s: StackView, frame: Seq<u8>)
    ensures
        s.same_ring(handled(s, frame)),
{
    arp::lemma_keeps_ring(s, frame.skip(HEADER_LEN as int));
    ip::lemma_keeps_ring(s, frame.skip(HEADER_LEN as int));
}

/// Two addresses that are rendered alike are the same, and a rendering holds
/// seventeen bytes: lower-case hexadecimal digits, with a colon at every third place.
pub proof fn law_mac_text_is_faithful(a: Seq<u8>, b: Seq<u8>)
    requires
        a.len() == 6,
        b.len() == 6,
    ensures
        mac_text(a).len() == 17,
        forall|i: int|
            0 <= i < 17 ==> if i % 3 == 2 {
                #[trigger] mac_text(a)[i] == 0x3a
            } else {
                0x30 <= mac_text(a)[i] <= 0x39 || 0x61 <= mac_text(a)[i] <= 0x66
            },
        forall|i: int|
            0 <= i < 6 ==> #[trigger] a[i] == digit_value(mac_text(a)[3 * i]) * 16 + digit_value(
                mac_text(a)[3 * i + 1],
            ),
        mac_text(a) == mac_text(b) ==> a == b,
{
    assert forall|i: int| 0 <= i < 6 implies #[trigger] a[i] == digit_value(mac_text(a)[3 * i]) * 16
        + digit_value(mac_text(a)[3 * i + 1]) by {
        assert((3 * i) / 3 == i && (3 * i + 1) / 3 == i);
    }
    assert forall|i: int| 0 <= i < 6 implies #[trigger] b[i] == digit_value(mac_text(b)[3 * i]) * 16
        + digit_value(mac_text(b)[3 * i + 1]) by {
        assert((3 * i) / 3 == i && (3 * i + 1) / 3 == i);
    }
    if mac_text(a) == mac_text(b) {
        assert(a =~= b);
    }
}

/// The value of a lower-case hexadecimal digit.
pub open spec fn digit_value(c: u8) -> int {
    if c <= 0x39 {
        c - 0x30
    } else {
        c - 0x57
    }
}

/// Every byte of a frame: destination, source, type, payload.
pub proof fn law_frame_layout(dst: MacAddr, src: MacAddr, ethertype: u16, payload: Seq<u8>)
    ensures
        ({
            let f = frame_of(dst, src, ethertype, payload);
            &&& f.len() == 14 + payload.len()
            &&& f.subrange(0, 6) == dst.0@
            &&& f.subrange(6, 12) == src.0@
            &&& f[12] * 256 + f[13] == ethertype
            &&& f.skip(14) == payload
        }),
{
    let f = frame_of(dst, src, ethertype, payload);
    assert(f.subrange(0, 6) =~= dst.0@);
    assert(f.subrange(6, 12) =~= src.0@);
    assert(f.skip(14) =~= payload);
}

/// Who gets a frame: ARP those of type 0x0806, IPv4 those of type 0x0800, each
/// without the first fourteen bytes; nobody the others, nor one that is too short.
pub proof fn law_frames_by_type(s: StackView, frame: Seq<u8>)
    ensures
        frame.len() < 14 ==> handled(s, frame) == s,
        frame.len() >= 14 && frame[12] == 0x08 && frame[13] == 0x06 ==> handled(s, frame)
            == arp::handled(s, frame.skip(14)),
        frame.len() >= 14 && frame[12] == 0x08 && frame[13] == 0x00 ==> handled(s, frame)
            == ip::handled(s, frame.skip(14)),
        frame.len() >= 14 && !(frame[12] == 0x08 && (frame[13] == 0x06 || frame[13] == 0x00))
            ==> handled(s, frame).nic == s.nic && handled(s, frame).cache == s.cache && handled(
            s,
            frame,
        ).sockets == s.sockets,
{
}

/// What is reported of a frame of an unknown type: the type and the length of what it
/// carries.
pub proof fn law_unknown_frames_are_reported(s: StackView, frame: Seq<u8>)
    requires
        14 <= frame.len() <= usize::MAX,
        frame[12] != 8 || (frame[13] != 6 && frame[13] != 0),
    ensures
        match handled(s, frame).events.last() {
            Event::UnknownEtherType { ethertype, len } => ethertype == frame[12] * 256 + frame[13]
                && len + 14 == frame.len(),
            _ => false,
        },
{
}

} // verus!
