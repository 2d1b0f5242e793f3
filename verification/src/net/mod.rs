//! A small, hand-written, layered TCP/IP stack.
//!
//! ```text
//!   application (shell / socket)      <- socket.rs
//!   transport   UDP | TCP (skeleton)  <- udp.rs / tcp.rs
//!   network     IPv4 + ICMP           <- ip.rs / icmp.rs
//!   link        Ethernet + ARP        <- ethernet.rs / arp.rs
//!   driver      e1000 frame send/recv
//! ```
//!
//! Incoming frames are decoded bottom-up and dispatched by EtherType / IP
//! protocol; outgoing packets are built top-down.
use vstd::prelude::*;
use crate::bytes::{extend, four_at, push_u16, u16_bytes, with_u16};
use crate::fs::Vfs;
use crate::system::{System, SystemView};
use crate::drivers::e1000::{self, card, card_sent, Nic, NicOpView, NicView};

pub mod arp;
pub mod ethernet;
pub mod icmp;
pub mod ip;
pub mod socket;
pub mod tcp;
pub mod udp;

pub use ethernet::MacAddr;

verus! {

/// Our hard-coded IPv4 identity.
pub const IP: [u8; 4] = [10, 0, 2, 15];

pub const GATEWAY: [u8; 4] = [10, 0, 2, 2];

/// Something the stack reports on the console.
#[derive(Clone, Copy, PartialEq, Eq, Debug)]
pub enum Event {
    ArpRequest { target: [u8; 4] },
    ArpLearned { ip: [u8; 4], mac: MacAddr },
    ArpReplied { mac: MacAddr },
    UnknownEtherType { ethertype: u16, len: usize },
    MalformedIp { len: usize },
    IpReceived { src: [u8; 4], proto: u8, len: usize },
    UnsupportedProtocol(u8),
    EchoRequest { src: [u8; 4], data: usize },
    EchoReply { src: [u8; 4], id: u16, seq: u16 },
    UnhandledControl(u8),
    Ping { dst: [u8; 4], seq: u16, len: usize },
    UdpReceived { src: [u8; 4], sport: u16, dport: u16, len: usize },
    TcpReceived { src: [u8; 4], sport: u16, dport: u16, flags: u16, number: u32, ack: u32 },
    TcpTransition { from: tcp::TcpState, to: tcp::TcpState, port: u16 },
    Delivered { len: usize, sockets: usize, port: u16 },
}

/// The mutable pieces of the stack: the card, the ARP cache, the socket table,
/// and what has been reported.
pub struct Stack {
    pub nic: Option<Nic>,
    pub cache: arp::ArpCache,
    pub sockets: socket::SocketTable,
    pub events: Vec<Event>,
}

/// The state of a [`Stack`].
#[verifier::ext_equal]
pub struct StackView {
    pub nic: Option<NicView>,
    pub cache: Map<u32, MacAddr>,
    pub sockets: Seq<Option<socket::SocketView>>,
    pub events: Seq<Event>,
}

impl View for Stack {
    type V = StackView;

    open spec fn view(&self) -> StackView {
        StackView {
            nic: card(self.nic),
            cache: self.cache@,
            sockets: self.sockets@,
            events: self.events@,
        }
    }
}

impl StackView {
    /// The state once `e` was reported.
    pub open spec fn logged(self, e: Event) -> StackView {
        StackView { events: self.events.push(e), ..self }
    }

    /// The state once the oldest datagram of socket `i`, if there is one, was received.
    pub open spec fn received(self, i: int) -> StackView {
        StackView { sockets: socket::received(self.sockets, i), ..self }
    }

    /// Our own MAC, or all-zero if the card never came up.
    pub open spec fn our_mac(self) -> MacAddr {
        match self.nic {
            Some(n) => MacAddr(n.mac),
            None => MacAddr([0, 0, 0, 0, 0, 0]),
        }
    }

    /// The state once a frame around `payload` was handed to the card, if there is one.
    pub open spec fn transmitted(
        self,
        dst: MacAddr,
        ethertype: u16,
        payload: Seq<u8>,
    ) -> StackView {
        let frame = ethernet::frame_of(dst, self.our_mac(), ethertype, payload);
        StackView { nic: card_sent(self.nic, frame), ..self }
    }

    /// Where a packet for `dst` goes: to its own binding, else to the gateway's,
    /// else to everyone.
    pub open spec fn next_hop(self, dst: [u8; 4]) -> MacAddr {
        match arp::binding(self.cache, dst) {
            Some(m) => m,
            None => match arp::binding(self.cache, GATEWAY) {
                Some(m) => m,
                None => MacAddr(MacAddr::BROADCAST),
            },
        }
    }

    /// Whether the receive side of the card is the same in `other`.
    pub open spec fn same_ring(self, other: StackView) -> bool {
        match (self.nic, other.nic) {
            (Some(a), Some(b)) => {
                &&& a.rx_ring == b.rx_ring
                &&& a.rx_data == b.rx_data
                &&& a.rx_bufs == b.rx_bufs
                &&& a.rx_cursor == b.rx_cursor
            },
            (None, None) => true,
            _ => false,
        }
    }

    /// Whether the card, if there is one, is sound, and every frame can be decoded
    /// that polling reaches: the frames in a row from the slot that is polled next.
    pub open spec fn ring_ok(self) -> bool {
        self.nic is Some ==> {
            &&& self.nic->0.wf()
            &&& forall|k: int|
                0 <= k < e1000::NUM_RX && #[trigger] self.nic->0.in_row(k) ==> ethernet::decodable(
                    self.nic->0.frame(self.nic->0.slot(k)),
                )
        }
    }

    /// Whether a frame waits in the slot that is polled next.
    pub open spec fn frame_waits(self) -> bool {
        self.nic is Some && self.nic->0.ready(self.nic->0.rx_index())
    }

    /// The state once the waiting frame was taken off the ring and handled.
    #[verifier::opaque]
    pub open spec fn pumped_once(self) -> StackView {
        let n = self.nic->0;
        ethernet::handled(StackView { nic: Some(n.taken()), ..self }, n.frame(n.rx_index()))
    }

    /// The state, and the number of frames handled, once up to `limit` waiting
    /// frames were handled one after the other.
    pub open spec fn pumped(self, limit: nat) -> (StackView, nat)
        decreases limit,
    {
        if limit == 0 || !self.frame_waits() {
            (self, 0)
        } else {
            let (s, n) = self.pumped_once().pumped((limit - 1) as nat);
            (s, n + 1)
        }
    }
}

impl Stack {
    /// A stack without a card, with nothing learned and no sockets.
    pub fn new() -> (s: Stack)
        ensures
            s@ == (StackView { nic: None, cache: Map::empty(), sockets: seq![], events: seq![] }),
    {
        let s = Stack {
            nic: None,
            cache: arp::ArpCache::new(),
            sockets: socket::SocketTable::new(),
            events: Vec::new(),
        };
        assert(s@ =~= (StackView { nic: None, cache: Map::empty(), sockets: seq![], events: seq![] }));
        s
    }

    pub(crate) fn log(&mut self, e: Event)
        ensures
            final(self)@ == old(self)@.logged(e),
    {
        self.events.push(e);
    }

    /// Hand out what has been reported, oldest first.
    pub fn take_events(&mut self) -> (r: Vec<Event>)
        ensures
            r@ == old(self)@.events,
            final(self)@ == (StackView { events: seq![], ..old(self)@ }),
    {
        let mut r: Vec<Event> = Vec::new();
        std::mem::swap(&mut r, &mut self.events);
        r
    }
}

/// Bring up the mutable pieces of the stack (ARP cache, socket table).
pub fn init(s: &mut Stack)
    ensures
        final(s)@ == (StackView { cache: Map::empty(), sockets: seq![], ..old(s)@ }),
{
    arp::init(&mut s.cache);
    socket::init(&mut s.sockets);
    assert(s@ =~= (StackView { cache: Map::empty(), sockets: seq![], ..old(s)@ }));
}

/// The sum of the big-endian sixteen-bit words of `d`; an odd last byte counts
/// as the high half of a word.
pub open spec fn word_sum(d: Seq<u8>) -> nat
    decreases d.len(),
{
    if d.len() == 0 {
        0
    } else if d.len() == 1 {
        d[0] as nat * 256
    } else {
        d[0] as nat * 256 + d[1] as nat + word_sum(d.skip(2))
    }
}

/// The ones-complement sixteen-bit representative of `s`: zero for zero, else
/// the number in `1..=0xffff` that is congruent to `s` modulo `0xffff`.
pub open spec fn fold(s: nat) -> nat {
    if s == 0 {
        0
    } else {
        1 + (s - 1) as nat % 0xffff
    }
}

/// The internet checksum of `d`.
pub open spec fn checksum_of(d: Seq<u8>) -> u16 {
    (0xffff - fold(word_sum(d))) as u16
}

proof fn lemma_fold_step(s: nat, w: nat)
    requires
        w <= 0xffff,
    ensures
        fold(s + w) == if fold(s) + w > 0xffff {
            (fold(s) + w - 0xffff) as nat
        } else {
            fold(s) + w
        },
{
}

/// The RFC 1071 ones-complement internet checksum (used by IPv4, ICMP, UDP, TCP).
pub fn checksum(data: &[u8]) -> (r: u16)
    ensures
        r == checksum_of(data@),
{
    let mut sum: u32 = 0;
    let mut i: usize = 0;
    let ghost mut done: nat = 0;
    proof {
        assert(data@.skip(0) =~= data@);
    }
    while data.len() - i >= 2
        invariant
            i <= data@.len(),
            sum == fold(done),
            done + word_sum(data@.skip(i as int)) == word_sum(data@),
        decreases data@.len() - i,
    {
        let w: u32 = data[i] as u32 * 256 + data[i + 1] as u32;
        proof {
            assert(data@.skip(i as int).skip(2) =~= data@.skip(i + 2));
            lemma_fold_step(done, w as nat);
            done = done + w as nat;
        }
        sum = sum + w;
        if sum > 0xffff {
            sum = sum - 0xffff;
        }
        i = i + 2;
    }
    if i < data.len() {
        let w: u32 = data[i] as u32 * 256;
        proof {
            lemma_fold_step(done, w as nat);
            done = done + w as nat;
        }
        sum = sum + w;
        if sum > 0xffff {
            sum = sum - 0xffff;
        }
    }
    (0xffff - sum) as u16
}

proof fn lemma_word_sum_fill(d: Seq<u8>, k: int, x: u16)
    requires
        0 <= k,
        k % 2 == 0,
        k + 2 <= d.len(),
        d[k] == 0,
        d[k + 1] == 0,
    ensures
        word_sum(with_u16(d, k, x)) == word_sum(d) + x as nat,
    decreases d.len(),
{
    let e = with_u16(d, k, x);
    if k == 0 {
        assert(e.skip(2) =~= d.skip(2));
    } else {
        assert(e.skip(2) =~= with_u16(d.skip(2), k - 2, x));
        lemma_word_sum_fill(d.skip(2), k - 2, x);
    }
}

/// A message whose checksum field, zero while the checksum is computed, is
/// then filled in checks out: its own checksum is zero.
pub proof fn law_filled_checksum_verifies(d: Seq<u8>, k: int)
    requires
        0 <= k,
        k % 2 == 0,
        k + 2 <= d.len(),
        d[k] == 0,
        d[k + 1] == 0,
    ensures
        checksum_of(with_u16(d, k, checksum_of(d))) == 0,
{
    lemma_word_sum_fill(d, k, checksum_of(d));
}

/// The IPv4 pseudo-header that transport checksums cover.
pub open spec fn pseudo_header(src: [u8; 4], dst: [u8; 4], proto: u8, length: u16) -> Seq<u8> {
    src@ + dst@ + seq![0u8, proto] + u16_bytes(length)
}

pub(crate) fn push_pseudo_header(
    v: &mut Vec<u8>,
    src: [u8; 4],
    dst: [u8; 4],
    proto: u8,
    length: u16,
)
    ensures
        final(v)@ == old(v)@ + pseudo_header(src, dst, proto, length),
{
    extend(v, src.as_slice());
    extend(v, dst.as_slice());
    v.push(0);
    v.push(proto);
    push_u16(v, length);
    assert(v@ =~= old(v)@ + pseudo_header(src, dst, proto, length));
}

/// Frames that one [`pump`] handles at most.
pub const PUMP_LIMIT: usize = 16;

/// Pull every frame the card has buffered and feed them up the stack.
/// Returns how many frames were processed.
pub fn pump(s: &mut Stack) -> (n: usize)
    requires
        old(s)@.ring_ok(),
    ensures
        (final(s)@, n as nat) == old(s)@.pumped(PUMP_LIMIT as nat),
        (final(s)@, n as nat) == old(s)@.pumped(16),
        final(s)@.ring_ok(),
{
    let mut n: usize = 0;
    let ghost start = s@;
    while n < PUMP_LIMIT
        invariant
            n <= PUMP_LIMIT,
            start == old(s)@,
            s@.ring_ok(),
            ({
                let rest = s@.pumped((PUMP_LIMIT - n) as nat);
                start.pumped(PUMP_LIMIT as nat) == (rest.0, (rest.1 + n) as nat)
            }),
        decreases PUMP_LIMIT - n,
    {
        if !pump_one(s) {
            return n;
        }
        n = n + 1;
    }
    n
}

/// Handle the frame that is polled next, if one waits.
fn pump_one(s: &mut Stack) -> (r: bool)
    requires
        old(s)@.ring_ok(),
    ensures
        r == old(s)@.frame_waits(),
        final(s)@ == if r {
            old(s)@.pumped_once()
        } else {
            old(s)@
        },
        final(s)@.ring_ok(),
{
    reveal(StackView::pumped_once);
    let ghost before = s@;
    match e1000::poll_receive(&mut s.nic) {
        Some(frame) => {
            proof {
                lemma_pumped_once_keeps_ring_ok(before);
            }
            assert(s@ =~= (StackView { nic: Some(before.nic->0.taken()), ..before }));
            ethernet::handle(s, frame.as_slice());
            true
        },
        None => false,
    }
}

#[verifier::rlimit(40)]
proof fn lemma_pumped_once_keeps_ring_ok(s: StackView)
    requires
        s.ring_ok(),
        s.frame_waits(),
    ensures
        s.pumped_once().ring_ok(),
        ethernet::decodable(s.nic->0.frame(s.nic->0.rx_index())),
{
    reveal(StackView::pumped_once);
    let n = s.nic->0;
    let t = n.taken();
    let after = StackView { nic: Some(t), ..s };
    assert(n.slot(0) == n.rx_index());
    assert(n.in_row(0));
    e1000::lemma_taken_moves_on(n);
    ethernet::lemma_keeps_ring(after, n.frame(n.rx_index()));
    let m = s.pumped_once().nic->0;
    assert forall|k: int| 0 <= k < e1000::NUM_RX && #[trigger] m.in_row(k) implies
        ethernet::decodable(m.frame(m.slot(k))) by {
        assert forall|j: int| 0 <= j <= k implies t.ready(#[trigger] t.slot(j)) by {
            assert(m.ready(m.slot(j)));
        }
        assert(t.in_row(k));
        if k == 7 {
            assert(t.ready(t.slot(7)));
            assert(t.slot(7) == n.rx_index());
        } else {
            assert forall|j: int| 0 <= j <= k + 1 implies n.ready(#[trigger] n.slot(j)) by {
                if j > 0 {
                    assert(t.ready(t.slot(j - 1)));
                    assert(t.slot(j - 1) == n.slot(j));
                }
            }
            assert(n.in_row(k + 1));
            assert(m.slot(k) == n.slot(k + 1));
            assert(m.frame(m.slot(k)) == n.frame(n.slot(k + 1)));
        }
    }
}

/// Whether [`pump`] can take what waits in the ring.
pub fn can_pump(s: &Stack) -> (r: bool)
    requires
        s.nic is Some ==> s.nic->0@.wf(),
    ensures
        r == s@.ring_ok(),
{
    match &s.nic {
        Some(n) => {
            let mut k: usize = 0;
            while k < e1000::NUM_RX
                invariant
                    s.nic == Some(*n),
                    n@.wf(),
                    k <= e1000::NUM_RX,
                    forall|j: int| 0 <= j < k ==> n@.ready(#[trigger] n@.slot(j)),
                    forall|j: int|
                        0 <= j < k ==> ethernet::decodable(n@.frame(#[trigger] n@.slot(j))),
                decreases e1000::NUM_RX - k,
            {
                let i: usize = (n.rx_cursor % e1000::NUM_RX + k) % e1000::NUM_RX;
                assert(i == n@.slot(k as int));
                match n.peek(i) {
                    Some(frame) => {
                        if !ethernet::accepts(frame) {
                            assert(n@.in_row(k as int));
                            assert(!s@.ring_ok());
                            return false;
                        }
                    },
                    None => {
                        assert forall|j: int| 0 <= j < e1000::NUM_RX && #[trigger] n@.in_row(j) implies
                            ethernet::decodable(n@.frame(n@.slot(j))) by {
                            if j >= k {
                                assert(n@.ready(n@.slot(k as int)));
                            }
                        }
                        return true;
                    },
                }
                k = k + 1;
            }
            true
        },
        None => true,
    }
}

/// Pumping handles no more frames than it may, and stops short of that only
/// when no frame waits any more.
pub proof fn law_pump_drains(s: StackView, limit: nat)
    ensures
        s.pumped(limit).1 <= limit,
        s.pumped(limit).1 < limit ==> !s.pumped(limit).0.frame_waits(),
    decreases limit,
{
    if limit > 0 && s.frame_waits() {
        law_pump_drains(s.pumped_once(), (limit - 1) as nat);
    }
}

/// Our own MAC, or all-zero if the card never came up.
pub fn our_mac(s: &Stack) -> (r: MacAddr)
    ensures
        r == s@.our_mac(),
{
    match e1000::mac_address(&s.nic) {
        Some(m) => MacAddr(m),
        None => MacAddr([0, 0, 0, 0, 0, 0]),
    }
}

/// Wrap an L3 payload in an Ethernet frame addressed to `dst_mac` and send it.
pub fn transmit_ethernet(s: &mut Stack, dst_mac: MacAddr, ethertype: u16, payload: &[u8]) -> (r: bool)
    ensures
        r == (old(s)@.nic is Some),
        final(s)@ == old(s)@.transmitted(dst_mac, ethertype, payload@),
{
    let frame = ethernet::frame(dst_mac, our_mac(s), ethertype, payload);
    e1000::send(&mut s.nic, frame.as_slice())
}

/// Resolve the next-hop MAC for an IPv4 destination: a directly-connected host
/// from the ARP cache, otherwise the gateway, falling back to broadcast.
pub fn next_hop_mac(s: &Stack, dst_ip: [u8; 4]) -> (r: MacAddr)
    ensures
        r == s@.next_hop(dst_ip),
{
    if let Some(m) = arp::lookup(&s.cache, dst_ip) {
        return m;
    }
    if let Some(m) = arp::lookup(&s.cache, GATEWAY) {
        return m;
    }
    MacAddr(MacAddr::BROADCAST)
}

/// What the self test of the stack saw, layer by layer.
pub struct NetReport {
    pub mac: MacAddr,
    /// The gateway's binding, and the size of the cache.
    pub gateway: (Option<MacAddr>, usize),
    /// The next hop towards the gateway.
    pub route: MacAddr,
    /// Whether the echo request checks out, the type of the reply, and whether
    /// the reply checks out.
    pub echo: (bool, u8, bool),
    /// The socket of the UDP test, what it received, and its buffer.
    pub datagram: (usize, Option<(usize, [u8; 4], u16)>, Vec<u8>),
    pub sockets: socket::DemoReport,
}

/// The stack once the ARP part of the self test ran.
pub open spec fn demo_resolved(s: StackView) -> StackView {
    arp::handled(s, arp::demo_reply(s))
}

/// The stack once the parts of the self test up to ICMP ran.
pub open spec fn demo_echoed(s: StackView) -> StackView {
    icmp::handled(
        ip::handled(demo_resolved(s), ip::demo_packet()),
        GATEWAY,
        icmp::demo_request(),
    )
}

/// The stack once the parts of the self test up to TCP ran.
pub open spec fn demo_layers(s: StackView) -> StackView {
    tcp::handled(udp::demo_ran(demo_echoed(s)), GATEWAY, tcp::demo_segment())
}

/// The system once all parts of the self test but that of the sockets ran.
pub open spec fn demo_system(s: SystemView) -> SystemView {
    SystemView { net: demo_layers(s.net), ..s }
}

/// Round the stack once for a fixed set of crafted inbound frames and report what
/// each layer produced.
pub fn demo(v: &mut Vfs, sys: &mut System) -> (r: NetReport)
    requires
        old(v)@.fds.len() <= crate::fs::MAX_FDS,
    ensures
        (final(v)@, final(sys)@) == socket::demo_ran(old(v)@, demo_system(old(sys)@)),
        forall|fd: int| #[trigger] final(v)@.file(fd) == old(v)@.file(fd),
        final(v)@.fds.len() <= crate::fs::MAX_FDS,
        r.mac == old(sys)@.net.our_mac(),
        r.gateway.0 == Some(MacAddr(arp::DEMO_MAC)),
        r.gateway.1 == arp::table_of(demo_resolved(old(sys)@.net).cache).len(),
        r.route == MacAddr(arp::DEMO_MAC),
        r.echo == (true, 0u8, true),
        r.datagram.0 == socket::free_slot(demo_echoed(old(sys)@.net).sockets),
        r.datagram.1 == Some((14usize, GATEWAY, 7u16)),
        r.datagram.2@ == udp::demo_buffer(),
        socket::demo_saw(r.sockets, old(v)@, demo_system(old(sys)@)),
{
    let mac = our_mac(&sys.net);
    let ghost before = sys@;
    let gateway = arp::demo(&mut sys.net);
    proof {
        arp::law_payload_round_trip(
            arp::OP_REPLY,
            MacAddr(arp::DEMO_MAC),
            GATEWAY,
            before.net.our_mac(),
            IP,
        );
        arp::law_sender_is_learned(before.net, arp::demo_reply(before.net), GATEWAY);
    }
    let route = ip::demo(&mut sys.net);
    let echo = icmp::demo(&mut sys.net);
    let datagram = udp::demo(&mut sys.net);
    tcp::demo(&mut sys.net);
    assert(sys@ =~= demo_system(before));
    let sockets = socket::demo(v, sys);
    NetReport { mac, gateway, route, echo, datagram, sockets }
}

proof fn lemma_word_sum_concat(a: Seq<u8>, b: Seq<u8>)
    requires
        a.len() % 2 == 0,
    ensures
        word_sum(a + b) == word_sum(a) + word_sum(b),
    decreases a.len(),
{
    if a.len() == 0 {
        assert(a + b =~= b);
    } else {
        lemma_word_sum_concat(a.skip(2), b);
        assert((a + b).skip(2) =~= a.skip(2) + b);
        assert((a + b)[0] == a[0] && (a + b)[1] == a[1]);
    }
}

/// What the checksum sums up: a message is the sum of its parts, two bytes count as
/// the number that they spell, and a last odd byte as the high half of one.
pub proof fn law_words_are_summed(a: Seq<u8>, b: Seq<u8>, hi: u8, lo: u8)
    requires
        a.len() % 2 == 0,
    ensures
        word_sum(a + b) == word_sum(a) + word_sum(b),
        word_sum(seq![hi, lo]) == hi * 256 + lo,
        word_sum(seq![hi]) == hi * 256,
        word_sum(seq![]) == 0,
{
    lemma_word_sum_concat(a, b);
    assert(seq![hi, lo].skip(2) =~= seq![]);
    reveal_with_fuel(word_sum, 2);
}

/// The checksum of a message, added to the sum of its words, is a multiple of
/// 65535; it is 65535 only for a message of zeros.
pub proof fn law_checksum_complements_the_sum(d: Seq<u8>)
    ensures
        (checksum_of(d) + word_sum(d)) % 65535 == 0,
        checksum_of(d) == 65535 <==> word_sum(d) == 0,
{
    let s = word_sum(d);
    if s > 0 {
        let q = (s - 1) / 65535;
        let r = (s - 1) % 65535;
        assert(s - 1 == q * 65535 + r);
        assert(checksum_of(d) == 65534 - r);
        assert(checksum_of(d) + s == (q + 1) * 65535);
        assert(((q + 1) * 65535) % 65535 == 0) by (nonlinear_arith);
    }
}

/// Where a packet goes after ARP traffic: to the learned address of its
/// destination; to the gateway's, if only that is known; to everyone, if neither is.
pub proof fn law_next_hop(s: StackView, a: Seq<u8>, dst: [u8; 4])
    requires
        a.len() >= 28,
    ensures
        four_at(a, 14) == dst ==> arp::handled(s, a).next_hop(dst).0@ == a.subrange(8, 14),
        four_at(a, 14) == GATEWAY && arp::binding(s.cache, dst) is None && dst != GATEWAY
            ==> arp::handled(s, a).next_hop(dst).0@ == a.subrange(8, 14),
        arp::binding(s.cache, dst) is None && arp::binding(s.cache, GATEWAY) is None
            ==> s.next_hop(dst).0@ == seq![0xffu8, 0xff, 0xff, 0xff, 0xff, 0xff],
{
    arp::law_sender_is_learned(s, a, dst);
    arp::law_sender_is_learned(s, a, GATEWAY);
    assert(arp::mac_at(a, 8).0@ =~= a.subrange(8, 14));
    let b = MacAddr(MacAddr::BROADCAST);
    assert(b.0@ =~= seq![0xffu8, 0xff, 0xff, 0xff, 0xff, 0xff]);
}

/// What reaches the card when something is transmitted: one frame with the
/// destination, our own address and the type in its first fourteen bytes and the
/// payload behind them.
pub proof fn law_transmitted_frame(s: StackView, dst: MacAddr, ethertype: u16, payload: Seq<u8>)
    requires
        s.nic is Some,
    ensures
        ({
            let n = s.nic->0;
            let f = sent_frame(n, s.transmitted(dst, ethertype, payload).nic->0);
            &&& s.transmitted(dst, ethertype, payload).nic is Some
            &&& s.transmitted(dst, ethertype, payload).nic->0.ops.take(n.ops.len() as int) == n.ops
            &&& f.len() == 14 + payload.len()
            &&& f.subrange(0, 6) == dst.0@
            &&& f.subrange(6, 12) == n.mac@
            &&& f[12] * 256 + f[13] == ethertype
            &&& f.skip(14) == payload
        }),
{
    let n = s.nic->0;
    let t = s.transmitted(dst, ethertype, payload).nic->0;
    let f = sent_frame(n, t);
    assert(t.ops.take(n.ops.len() as int) =~= n.ops);
    assert(f.subrange(0, 6) =~= dst.0@);
    assert(f.subrange(6, 12) =~= n.mac@);
    assert(f.skip(14) =~= payload);
}

/// The frame that a transmission added to the pending writes of a card.
pub open spec fn sent_frame(before: NicView, after: NicView) -> Seq<u8> {
    match after.ops[before.ops.len() as int] {
        NicOpView::TxBuffer(f) => f,
        _ => seq![],
    }
}

/// Pumping in two goes handles the frames that one go handles, and reports as many.
pub proof fn law_pumping_adds_up(s: StackView, m: nat, n: nat)
    ensures
        s.pumped(m + n).0 == s.pumped(m).0.pumped(n).0,
        s.pumped(m + n).1 == s.pumped(m).1 + s.pumped(m).0.pumped(n).1,
    decreases m,
{
    if m > 0 && s.frame_waits() {
        law_pumping_adds_up(s.pumped_once(), (m - 1) as nat, n);
    }
}

/// One frame that waits: it is taken off the ring and handled as it was received.
pub proof fn law_waiting_frame_is_handled(s: StackView)
    requires
        s.nic is Some,
    ensures
        ({
            let n = s.nic->0;
            let i = n.rx_cursor as int % 8;
            if n.rx_ring[i].status % 2 == 1 && n.rx_ring[i].length > 0 {
                s.pumped(1) == (
                    ethernet::handled(
                        StackView { nic: Some(n.taken()), ..s },
                        n.rx_data[i].take(n.rx_ring[i].length as int),
                    ),
                    1nat,
                )
            } else {
                s.pumped(1) == (s, 0nat)
            }
        }),
{
    let n = s.nic->0;
    let b = n.rx_ring[n.rx_cursor as int % 8].status;
    assert((b & 1 != 0) == (b % 2 == 1)) by (bit_vector);
    reveal(StackView::pumped_once);
    reveal_with_fuel(StackView::pumped, 2);
}

} // verus!
