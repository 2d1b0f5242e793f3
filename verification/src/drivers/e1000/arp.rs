//! ARP frame construction and the probe for the gateway, layered on the raw
//! send and receive.
use vstd::prelude::*;
use super::{card, lemma_taken_moves_on, mac_address, poll_receive, send, Nic, NicView, GATEWAY, IP};
use crate::bytes::{extend, four, four_at};
use crate::net::arp::payload_of;
use crate::net::ethernet::frame_of;
use crate::net::MacAddr;

verus! {

/// The frame that asks everyone for the address of `target`.
pub open spec fn request_of(mac: [u8; 6], target: [u8; 4]) -> Seq<u8> {
    seq![0xffu8, 0xff, 0xff, 0xff, 0xff, 0xff] + mac@ + seq![0x08u8, 0x06, 0x00, 0x01, 0x08, 0x00, 6,
        4, 0x00, 0x01] + mac@ + IP@ + seq![0u8, 0, 0, 0, 0, 0] + target@
}

/// Build an ARP request: "who-has <target>, tell <IP>" from our MAC.
pub fn arp_request(mac: &[u8; 6], target: [u8; 4]) -> (f: Vec<u8>)
    ensures
        f@ == request_of(*mac, target),
{
    let mut f: Vec<u8> = Vec::new();
    extend(&mut f, &[0xff, 0xff, 0xff, 0xff, 0xff, 0xff]);
    extend(&mut f, mac.as_slice());
    extend(&mut f, &[0x08, 0x06]);
    extend(&mut f, &[0x00, 0x01]);
    extend(&mut f, &[0x08, 0x00]);
    f.push(6);
    f.push(4);
    extend(&mut f, &[0x00, 0x01]);
    extend(&mut f, mac.as_slice());
    extend(&mut f, IP.as_slice());
    extend(&mut f, &[0, 0, 0, 0, 0, 0]);
    extend(&mut f, target.as_slice());
    assert(f@ =~= request_of(*mac, target));
    f
}

/// Whether `frame` is long enough for ARP, of EtherType 0x0806 and of operation 2.
pub open spec fn replies(frame: Seq<u8>) -> bool {
    &&& frame.len() >= 42
    &&& frame[12] == 0x08 && frame[13] == 0x06
    &&& frame[20] == 0x00 && frame[21] == 0x02
}

/// Is `frame` an ARP reply (EtherType 0x0806, oper 2)?
pub fn is_arp_reply(frame: &[u8]) -> (r: bool)
    ensures
        r == replies(frame@),
{
    frame.len() >= 42 && frame[12] == 0x08 && frame[13] == 0x06 && frame[20] == 0x00 && frame[21]
        == 0x02
}

/// Who answered, and from where.
#[derive(Clone, Copy, PartialEq, Eq, Debug)]
pub struct ArpReply {
    pub ip: [u8; 4],
    pub mac: [u8; 6],
}

/// What an ARP reply says of its sender.
pub open spec fn sender_of(frame: Seq<u8>) -> ArpReply {
    ArpReply {
        ip: four_at(frame, 28),
        mac: [frame[22], frame[23], frame[24], frame[25], frame[26], frame[27]],
    }
}

/// How many slots of the ring hold a frame.
pub open spec fn waiting(n: NicView) -> int {
    (if n.ready(0) { 1int } else { 0 }) + (if n.ready(1) { 1int } else { 0 })
        + (if n.ready(2) { 1int } else { 0 }) + (if n.ready(3) { 1int } else { 0 })
        + (if n.ready(4) { 1int } else { 0 }) + (if n.ready(5) { 1int } else { 0 })
        + (if n.ready(6) { 1int } else { 0 }) + (if n.ready(7) { 1int } else { 0 })
}

proof fn lemma_taken_waits_less(n: NicView)
    requires
        n.wf(),
        n.ready(n.rx_index()),
    ensures
        n.taken().wf(),
        waiting(n.taken()) == waiting(n) - 1,
{
    let i = n.rx_index();
    let t = n.taken();
    assert(forall|j: int| 0 <= j < 8 && j != i ==> t.rx_ring[j] == n.rx_ring[j]);
    assert(forall|j: int| 0 <= j < 8 && j != i ==> #[trigger] t.ready(j) == n.ready(j));
    assert(!t.ready(i));
    assert(i == 0 || i == 1 || i == 2 || i == 3 || i == 4 || i == 5 || i == 6 || i == 7);
}

/// What draining the ring up to the first ARP reply gives and leaves.
pub open spec fn drained(n: NicView) -> (Option<ArpReply>, NicView)
    decreases waiting(n), when n.wf() via drained_decreases
{
    if !n.ready(n.rx_index()) {
        (None, n)
    } else if replies(n.frame(n.rx_index())) {
        (Some(sender_of(n.frame(n.rx_index()))), n.taken())
    } else {
        drained(n.taken())
    }
}

#[via_fn]
proof fn drained_decreases(n: NicView) {
    if n.ready(n.rx_index()) {
        lemma_taken_waits_less(n);
    }
}

/// Take frames off the ring until one is an ARP reply, or none is left.
pub fn poll_reply(nic: &mut Option<Nic>) -> (r: Option<ArpReply>)
    requires
        *old(nic) is Some ==> old(nic)->0@.wf(),
    ensures
        match card(*old(nic)) {
            Some(n) => (r, card(*final(nic))) == (drained(n).0, Some(drained(n).1)),
            None => r is None && *final(nic) == *old(nic),
        },
        *final(nic) is Some ==> final(nic)->0@.wf(),
{
    loop
        invariant
            *old(nic) is Some <==> *nic is Some,
            *nic is Some ==> nic->0@.wf(),
            *nic is Some ==> drained(old(nic)->0@) == drained(nic->0@),
            *nic is None ==> *nic == *old(nic),
        decreases
                if *nic is Some {
                    waiting(nic->0@)
                } else {
                    0
                },
    {
        proof {
            if *nic is Some && nic->0@.ready(nic->0@.rx_index()) {
                lemma_taken_waits_less(nic->0@);
            }
        }
        match poll_receive(nic) {
            Some(frame) => {
                if is_arp_reply(frame.as_slice()) {
                    return Some(
                        ArpReply {
                            ip: four(frame.as_slice(), 28),
                            mac: [frame[22], frame[23], frame[24], frame[25], frame[26], frame[27]],
                        },
                    );
                }
            },
            None => {
                return None;
            },
        }
    }
}

/// What a probe for the gateway does next.
#[derive(Clone, Copy, PartialEq, Eq, Debug)]
pub enum Probe {
    /// There is no card to probe with.
    NoCard,
    /// Sleep for so many ticks, then poll for the reply.
    Sleep(u64),
    /// The reply has come.
    Reply(ArpReply),
    /// No reply came in time.
    NoReply,
}

/// How often a reply is polled for.
pub const PROBE_ROUNDS: u32 = 40;

/// Ticks between polls: 50 ms.
pub const PROBE_TICKS: u64 = 5;

/// Start a probe: ask for the gateway, if there is a card.
pub fn demo_arp(nic: &mut Option<Nic>) -> (r: Probe)
    ensures
        match card(*old(nic)) {
            Some(n) => {
                &&& r == Probe::Sleep(PROBE_TICKS)
                &&& r == Probe::Sleep(5)
                &&& card(*final(nic)) == Some(n.sent(request_of(n.mac, GATEWAY)))
            },
            None => r == Probe::NoCard && *final(nic) == *old(nic),
        },
{
    match mac_address(nic) {
        Some(mac) => {
            let req = arp_request(&mac, GATEWAY);
            if send(nic, req.as_slice()) {
                Probe::Sleep(PROBE_TICKS)
            } else {
                Probe::NoCard
            }
        },
        None => Probe::NoCard,
    }
}

/// Go on with a probe after the sleep of round `round`, the first being zero.
pub fn demo_arp_round(nic: &mut Option<Nic>, round: u32) -> (r: Probe)
    requires
        *old(nic) is Some ==> old(nic)->0@.wf(),
    ensures
        *final(nic) is Some ==> final(nic)->0@.wf(),
        card(*final(nic)) == match card(*old(nic)) {
            Some(n) => Some(drained(n).1),
            None => None,
        },
        r == match card(*old(nic)) {
            Some(n) if drained(n).0 is Some => Probe::Reply(drained(n).0->0),
            _ => if round + 1 < PROBE_ROUNDS {
                Probe::Sleep(PROBE_TICKS)
            } else {
                Probe::NoReply
            },
        },
        !(r is Reply) ==> r == if round < 39 {
            Probe::Sleep(5)
        } else {
            Probe::NoReply
        },
{
    match poll_reply(nic) {
        Some(reply) => Probe::Reply(reply),
        None => {
            if round < PROBE_ROUNDS - 1 {
                Probe::Sleep(PROBE_TICKS)
            } else {
                Probe::NoReply
            }
        },
    }
}

/// The request is the broadcast Ethernet frame around the ARP request from our
/// own address.
pub proof fn law_request_is_broadcast_arp(mac: [u8; 6], target: [u8; 4])
    ensures
        request_of(mac, target) == frame_of(
            MacAddr(MacAddr::BROADCAST),
            MacAddr(mac),
            crate::net::ethernet::ETHERTYPE_ARP,
            payload_of(
                crate::net::arp::OP_REQUEST,
                MacAddr(mac),
                IP,
                MacAddr([0, 0, 0, 0, 0, 0]),
                target,
            ),
        ),
{
    assert(request_of(mac, target) =~= frame_of(
        MacAddr(MacAddr::BROADCAST),
        MacAddr(mac),
        crate::net::ethernet::ETHERTYPE_ARP,
        payload_of(
            crate::net::arp::OP_REQUEST,
            MacAddr(mac),
            IP,
            MacAddr([0, 0, 0, 0, 0, 0]),
            target,
        ),
    ));
}

/// A frame around an ARP reply is recognized, with its sender; a request is not.
pub proof fn law_reply_is_recognized(
    to: MacAddr,
    from: MacAddr,
    sha: [u8; 6],
    spa: [u8; 4],
    tha: MacAddr,
    tpa: [u8; 4],
)
    ensures
        ({
            let f = frame_of(
                to,
                from,
                crate::net::ethernet::ETHERTYPE_ARP,
                payload_of(crate::net::arp::OP_REPLY, MacAddr(sha), spa, tha, tpa),
            );
            replies(f) && sender_of(f) == (ArpReply { ip: spa, mac: sha })
        }),
        !replies(request_of(sha, tpa)),
{
    let f = frame_of(
        to,
        from,
        crate::net::ethernet::ETHERTYPE_ARP,
        payload_of(crate::net::arp::OP_REPLY, MacAddr(sha), spa, tha, tpa),
    );
    assert(sender_of(f).ip@ =~= spa@);
    assert(sender_of(f).ip =~= spa);
    assert(sender_of(f).mac@ =~= sha@);
    assert(sender_of(f).mac =~= sha);
}

/// Which frames are ARP replies: those of at least 42 bytes, of type 0x0806, whose
/// operation is 2. The sender's address is in bytes 28 to 31, its MAC address in 22
/// to 27.
pub proof fn law_reply_bytes(f: Seq<u8>)
    ensures
        replies(f) <==> f.len() >= 42 && f[12] * 256 + f[13] == 0x0806 && f[20] * 256 + f[21] == 2,
        f.len() >= 42 ==> sender_of(f).ip@ == f.subrange(28, 32),
        f.len() >= 42 ==> sender_of(f).mac@ == f.subrange(22, 28),
{
    if f.len() >= 42 {
        assert(sender_of(f).ip@ =~= f.subrange(28, 32));
        assert(sender_of(f).mac@ =~= f.subrange(22, 28));
    }
}

/// The first reply among the frames that wait in a row is found, whatever stands
/// before it; without one, nothing is found, and no frame is left in the row.
pub proof fn law_first_reply_is_found(n: NicView, k: int)
    requires
        n.wf(),
        0 <= k < 8,
        forall|j: int|
            0 <= j < k ==> n.ready(#[trigger] n.slot(j)) && !replies(n.frame(n.slot(j))),
    ensures
        n.ready(n.slot(k)) && replies(n.frame(n.slot(k))) ==> drained(n).0 == Some(
            sender_of(n.frame(n.slot(k))),
        ),
        !n.ready(n.slot(k)) ==> drained(n).0 is None,
    decreases k,
{
    lemma_taken_moves_on(n);
    assert(n.slot(0) == n.rx_index());
    if k > 0 {
        assert(n.ready(n.slot(0)) && !replies(n.frame(n.slot(0))));
        let t = n.taken();
        lemma_taken_waits_less(n);
        assert forall|j: int| 0 <= j < k - 1 implies t.ready(#[trigger] t.slot(j)) && !replies(
            t.frame(t.slot(j)),
        ) by {
            assert(t.slot(j) == n.slot(j + 1));
            assert(n.slot(j + 1) != n.rx_index());
            assert(n.ready(n.slot(j + 1)));
            assert(t.frame(t.slot(j)) == n.frame(n.slot(j + 1)));
        }
        law_first_reply_is_found(t, k - 1);
        assert(t.slot(k - 1) == n.slot(k));
        assert(n.slot(k) != n.rx_index());
        assert(t.frame(t.slot(k - 1)) == n.frame(n.slot(k)));
        assert(t.ready(t.slot(k - 1)) == n.ready(n.slot(k)));
        assert(drained(n) == drained(t));
    }
}

} // verus!
