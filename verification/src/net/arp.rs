//! ARP: map IPv4 -> MAC, with a small learning cache.
//!
//! The 28-byte ARP payload (after the Ethernet header) is:
//! `htype[2] ptype[2] hlen plen oper[2] sha[6] spa[4] tha[6] tpa[4]`.
use std::collections::BTreeMap;
use vstd::prelude::*;
use vstd::std_specs::btree::increasing_seq;
use vstd::std_specs::cmp::OrdSpec;
use vstd::std_specs::iter::IteratorSpec;
use super::ethernet::{MacAddr, ETHERTYPE_ARP};
use super::{our_mac, sent_frame, transmit_ethernet, Event, Stack, StackView, GATEWAY, IP};
use crate::bytes::{
    be16, be32, extend, four, four_at, lemma_u32_injective, push_u16, same_ip, u16_at, u16_bytes,
    u32_at,
};

verus! {

broadcast use vstd::std_specs::btree::group_btree_axioms;

pub const HTYPE_ETH: u16 = 1;

pub const PTYPE_IP: u16 = 0x0800;

pub const OP_REQUEST: u16 = 1;

pub const OP_REPLY: u16 = 2;

/// Known IPv4 -> MAC bindings, learned from received traffic. An address is
/// kept as the number that its bytes spell.
pub struct ArpCache {
    pub bindings: BTreeMap<u32, MacAddr>,
}

impl View for ArpCache {
    type V = Map<u32, MacAddr>;

    open spec fn view(&self) -> Map<u32, MacAddr> {
        self.bindings@
    }
}

/// The number that stands for an address in the cache.
pub open spec fn key(ip: [u8; 4]) -> u32 {
    u32_at(ip@, 0)
}

/// Different addresses are different keys.
pub proof fn lemma_key_injective(a: [u8; 4], b: [u8; 4])
    requires
        key(a) == key(b),
    ensures
        a == b,
{
    lemma_u32_injective(a@, b@);
    assert(a =~= b);
}

impl ArpCache {
    pub fn new() -> (r: ArpCache)
        ensures
            r@ == Map::<u32, MacAddr>::empty(),
    {
        ArpCache { bindings: BTreeMap::new() }
    }
}

/// Reset the cache.
pub fn init(c: &mut ArpCache)
    ensures
        final(c)@ == Map::<u32, MacAddr>::empty(),
{
    c.bindings.clear();
}

fn remember(c: &mut ArpCache, ip: [u8; 4], mac: MacAddr)
    ensures
        final(c)@ == old(c)@.insert(key(ip), mac),
{
    let k: u32 = be32(ip.as_slice(), 0);
    c.bindings.insert(k, mac);
}

/// The binding of `ip`, if there is one.
pub open spec fn binding(c: Map<u32, MacAddr>, ip: [u8; 4]) -> Option<MacAddr> {
    if c.dom().contains(key(ip)) {
        Some(c[key(ip)])
    } else {
        None
    }
}

/// Look up a cached MAC for `ip`.
pub fn lookup(c: &ArpCache, ip: [u8; 4]) -> (r: Option<MacAddr>)
    ensures
        r == binding(c@, ip),
{
    let k: u32 = be32(ip.as_slice(), 0);
    match c.bindings.get(&k) {
        Some(m) => Some(*m),
        None => None,
    }
}

/// Whether `t` lists exactly the bindings in `c`, by increasing address.
pub open spec fn lists(t: Seq<([u8; 4], MacAddr)>, c: Map<u32, MacAddr>) -> bool {
    &&& forall|i: int, j: int| 0 <= i < j < t.len() ==> key(#[trigger] t[i].0) < key(#[trigger] t[j].0)
    &&& forall|i: int| 0 <= i < t.len() ==> binding(c, (#[trigger] t[i]).0) == Some(t[i].1)
    &&& forall|k: u32| #[trigger]
        c.dom().contains(k) ==> exists|i: int| 0 <= i < t.len() && key((#[trigger] t[i]).0) == k
}

/// The bindings in `c`, by increasing address.
pub open spec fn table_of(c: Map<u32, MacAddr>) -> Seq<([u8; 4], MacAddr)> {
    choose|t: Seq<([u8; 4], MacAddr)>| lists(t, c)
}

/// There is one list of the bindings by increasing address.
pub proof fn law_table_is_determined(
    s: Seq<([u8; 4], MacAddr)>,
    t: Seq<([u8; 4], MacAddr)>,
    c: Map<u32, MacAddr>,
)
    requires
        lists(s, c),
        lists(t, c),
    ensures
        s == t,
{
    let ks = Seq::new(s.len(), |i: int| key(s[i].0));
    let kt = Seq::new(t.len(), |i: int| key(t[i].0));
    assert forall|k: u32| ks.contains(k) implies kt.contains(k) by {
        let i = ks.index_of(k);
        assert(binding(c, s[i].0) == Some(s[i].1));
        let j = choose|j: int| 0 <= j < t.len() && key((#[trigger] t[j]).0) == k;
        assert(kt[j] == k);
    }
    assert forall|k: u32| kt.contains(k) implies ks.contains(k) by {
        let i = kt.index_of(k);
        assert(binding(c, t[i].0) == Some(t[i].1));
        let j = choose|j: int| 0 <= j < s.len() && key((#[trigger] s[j]).0) == k;
        assert(ks[j] == k);
    }
    lemma_increasing_unique(ks, kt);
    assert forall|i: int| 0 <= i < s.len() implies s[i] == t[i] by {
        assert(ks[i] == kt[i]);
        lemma_key_injective(s[i].0, t[i].0);
        assert(binding(c, s[i].0) == Some(s[i].1));
        assert(binding(c, t[i].0) == Some(t[i].1));
    }
    assert(s =~= t);
}

proof fn lemma_increasing_unique(s: Seq<u32>, t: Seq<u32>)
    requires
        forall|i: int, j: int| 0 <= i < j < s.len() ==> s[i] < s[j],
        forall|i: int, j: int| 0 <= i < j < t.len() ==> t[i] < t[j],
        forall|k: u32| #[trigger] s.contains(k) <==> t.contains(k),
    ensures
        s == t,
    decreases s.len(),
{
    if s.len() == 0 {
        if t.len() > 0 {
            assert(t.contains(t[0]));
            assert(s.contains(t[0]));
        }
        assert(s =~= t);
    } else {
        assert(s.contains(s.last()));
        assert(t.contains(s.last()));
        let a = t.index_of(s.last());
        assert(t.contains(t.last()));
        assert(s.contains(t.last()));
        let b = s.index_of(t.last());
        assert(s.last() == t.last());
        let f = s.drop_last();
        let g = t.drop_last();
        assert forall|k: u32| #[trigger] f.contains(k) <==> g.contains(k) by {
            if f.contains(k) {
                let i = f.index_of(k);
                assert(s[i] == k);
                assert(s.contains(k));
                let j = t.index_of(k);
                assert(j < t.len() - 1);
                assert(g[j] == k);
            }
            if g.contains(k) {
                let i = g.index_of(k);
                assert(t[i] == k);
                assert(t.contains(k));
                assert(s.contains(k));
                let j = s.index_of(k);
                assert(j < s.len() - 1);
                assert(f[j] == k);
            }
        }
        lemma_increasing_unique(f, g);
        assert(s =~= f.push(s.last()));
        assert(t =~= g.push(t.last()));
    }
}

/// A snapshot of the cache for `arp -a`.
pub fn table(c: &ArpCache) -> (t: Vec<([u8; 4], MacAddr)>)
    ensures
        lists(t@, c@),
        t@ == table_of(c@),
{
    let mut t: Vec<([u8; 4], MacAddr)> = Vec::new();
    let entries = c.bindings.iter();
    let ghost items = entries.remaining();
    for (k, m) in it: entries
        invariant
            it.seq() == items,
            t@.len() == it.index(),
            forall|i: int|
                0 <= i < t@.len() ==> key((#[trigger] t@[i]).0) == *items[i].0 && t@[i].1
                    == *items[i].1,
    {
        let n: u32 = *k;
        let ip = [
            (n / 0x100_0000) as u8,
            (n / 0x1_0000 % 256) as u8,
            (n / 256 % 256) as u8,
            (n % 256) as u8,
        ];
        t.push((ip, *m));
    }
    proof {
        let keys = items.map_values(|kv: (&u32, &MacAddr)| *kv.0);
        lemma_keys_increase(keys);
        assert forall|i: int, j: int| 0 <= i < j < t@.len() implies key(#[trigger] t@[i].0) < key(
            #[trigger] t@[j].0,
        ) by {
            assert(keys[i] < keys[j]);
        }
        assert forall|i: int| 0 <= i < t@.len() implies binding(c@, (#[trigger] t@[i]).0) == Some(
            t@[i].1,
        ) by {
            assert(c@.contains_key(*items[i].0));
        }
        assert forall|k: u32| #[trigger] c@.dom().contains(k) implies exists|i: int|
            0 <= i < t@.len() && key((#[trigger] t@[i]).0) == k by {
            assert(c.bindings@.contains_key(k));
            let i = items.index_of((&k, &c@[k]));
            assert(key(t@[i].0) == k);
        }
        law_table_is_determined(t@, table_of(c@), c@);
    }
    t
}

proof fn lemma_keys_increase(keys: Seq<u32>)
    requires
        increasing_seq(keys),
    ensures
        forall|i: int, j: int| 0 <= i < j < keys.len() ==> keys[i] < keys[j],
{
    vstd::std_specs::btree::axiom_increasing_seq_meaning(keys);
    assert forall|i: int, j: int| 0 <= i < j < keys.len() implies keys[i] < keys[j] by {
        assert(keys[i].cmp_spec(&keys[j]) is Less);
    }
}

/// The 28-byte ARP payload with the given opcode and addresses.
pub open spec fn payload_of(
    oper: u16,
    sha: MacAddr,
    spa: [u8; 4],
    tha: MacAddr,
    tpa: [u8; 4],
) -> Seq<u8> {
    u16_bytes(HTYPE_ETH) + u16_bytes(PTYPE_IP) + seq![6u8, 4u8] + u16_bytes(oper) + sha.0@ + spa@
        + tha.0@ + tpa@
}

/// Build a 28-byte ARP payload with the given opcode and addresses.
pub fn payload(oper: u16, sha: MacAddr, spa: [u8; 4], tha: MacAddr, tpa: [u8; 4]) -> (p: Vec<u8>)
    ensures
        p@ == payload_of(oper, sha, spa, tha, tpa),
{
    let mut p: Vec<u8> = Vec::with_capacity(28);
    push_u16(&mut p, HTYPE_ETH);
    push_u16(&mut p, PTYPE_IP);
    p.push(6);
    p.push(4);
    push_u16(&mut p, oper);
    extend(&mut p, sha.0.as_slice());
    extend(&mut p, spa.as_slice());
    extend(&mut p, tha.0.as_slice());
    extend(&mut p, tpa.as_slice());
    assert(p@ =~= payload_of(oper, sha, spa, tha, tpa));
    p
}

/// What asking for `target` does to the stack.
pub open spec fn requested(s: StackView, target: [u8; 4]) -> StackView {
    let none = MacAddr([0, 0, 0, 0, 0, 0]);
    let p = payload_of(OP_REQUEST, s.our_mac(), IP, none, target);
    s.transmitted(MacAddr(MacAddr::BROADCAST), ETHERTYPE_ARP, p).logged(Event::ArpRequest { target })
}

/// Send an ARP "who-has <target>" broadcast from our own address.
pub fn request(s: &mut Stack, target: [u8; 4])
    ensures
        final(s)@ == requested(old(s)@, target),
{
    let me = our_mac(s);
    let pkt = payload(OP_REQUEST, me, IP, MacAddr([0, 0, 0, 0, 0, 0]), target);
    transmit_ethernet(s, MacAddr(MacAddr::BROADCAST), ETHERTYPE_ARP, pkt.as_slice());
    s.log(Event::ArpRequest { target });
}

/// The six bytes that start at `a[i]`.
pub open spec fn mac_at(a: Seq<u8>, i: int) -> MacAddr {
    MacAddr([a[i], a[i + 1], a[i + 2], a[i + 3], a[i + 4], a[i + 5]])
}

/// What receiving the ARP payload `a` does to the stack: the sender's binding is
/// learned, and a request for our own address is answered to the sender alone.
pub open spec fn handled(s: StackView, a: Seq<u8>) -> StackView {
    if a.len() < 28 {
        s
    } else {
        let sha = mac_at(a, 8);
        let spa = four_at(a, 14);
        let learned = StackView { cache: s.cache.insert(key(spa), sha), ..s }.logged(
            Event::ArpLearned { ip: spa, mac: sha },
        );
        if u16_at(a, 6) == OP_REQUEST && four_at(a, 24) == IP {
            let reply = payload_of(OP_REPLY, s.our_mac(), IP, sha, spa);
            learned.transmitted(sha, ETHERTYPE_ARP, reply).logged(
                Event::ArpReplied { mac: s.our_mac() },
            )
        } else {
            learned
        }
    }
}

/// Decode an inbound ARP payload: learn the sender, and answer requests aimed
/// at our IP with a unicast reply.
pub fn handle(s: &mut Stack, arp: &[u8])
    ensures
        final(s)@ == handled(old(s)@, arp@),
{
    if arp.len() < 28 {
        return;
    }
    let oper: u16 = be16(arp, 6);
    let sha = MacAddr([arp[8], arp[9], arp[10], arp[11], arp[12], arp[13]]);
    let spa = four(arp, 14);
    let tpa = four(arp, 24);
    remember(&mut s.cache, spa, sha);
    s.log(Event::ArpLearned { ip: spa, mac: sha });
    if oper == OP_REQUEST && same_ip(tpa, IP) {
        let me = our_mac(s);
        let pkt = payload(OP_REPLY, me, IP, sha, spa);
        transmit_ethernet(s, sha, ETHERTYPE_ARP, pkt.as_slice());
        s.log(Event::ArpReplied { mac: me });
    }
}

/// Every complete ARP payload teaches the sender's binding, and changes no other.
pub proof fn law_sender_is_learned(s: StackView, a: Seq<u8>, ip: [u8; 4])
    requires
        a.len() >= 28,
    ensures
        binding(handled(s, a).cache, four_at(a, 14)) == Some(mac_at(a, 8)),
        ip != four_at(a, 14) ==> binding(handled(s, a).cache, ip) == binding(s.cache, ip),
{
    if key(ip) == key(four_at(a, 14)) {
        lemma_key_injective(ip, four_at(a, 14));
    }
}

/// A payload that was built from addresses is decoded to the same addresses.
pub proof fn law_payload_round_trip(
    oper: u16,
    sha: MacAddr,
    spa: [u8; 4],
    tha: MacAddr,
    tpa: [u8; 4],
)
    ensures
        payload_of(oper, sha, spa, tha, tpa).len() == 28,
        u16_at(payload_of(oper, sha, spa, tha, tpa), 6) == oper,
        mac_at(payload_of(oper, sha, spa, tha, tpa), 8) == sha,
        four_at(payload_of(oper, sha, spa, tha, tpa), 14) == spa,
        four_at(payload_of(oper, sha, spa, tha, tpa), 24) == tpa,
{
    let p = payload_of(oper, sha, spa, tha, tpa);
    assert(mac_at(p, 8).0@ =~= sha.0@);
    assert(mac_at(p, 8).0 =~= sha.0);
    assert(four_at(p, 14)@ =~= spa@);
    assert(four_at(p, 14) =~= spa);
    assert(four_at(p, 24)@ =~= tpa@);
    assert(four_at(p, 24) =~= tpa);
}

/// Handling an ARP payload leaves the receive ring and the sockets alone.
pub proof fn lemma_keeps_ring(s: StackView, a: Seq<u8>)
    ensures
        s.same_ring(handled(s, a)),
{
}

/// The address that the self test makes the gateway answer from.
pub const DEMO_MAC: [u8; 6] = [0x52, 0x54, 0x00, 0x12, 0x34, 0x02];

/// The gateway's reply to us in the self test.
pub open spec fn demo_reply(s: StackView) -> Seq<u8> {
    payload_of(OP_REPLY, MacAddr(DEMO_MAC), GATEWAY, s.our_mac(), IP)
}

/// Deterministic self-test: fabricate a gateway ARP reply, push it through the
/// decoder, and look the binding up. Returns what was found, and how many
/// bindings the cache holds.
pub fn demo(s: &mut Stack) -> (r: (Option<MacAddr>, usize))
    ensures
        final(s)@ == handled(old(s)@, demo_reply(old(s)@)),
        r.0 == Some(MacAddr(DEMO_MAC)),
        r.1 == table_of(final(s)@.cache).len(),
{
    let me = our_mac(s);
    let reply = payload(OP_REPLY, MacAddr(DEMO_MAC), GATEWAY, me, IP);
    proof {
        law_payload_round_trip(OP_REPLY, MacAddr(DEMO_MAC), GATEWAY, me, IP);
        law_sender_is_learned(s@, reply@, GATEWAY);
    }
    handle(s, reply.as_slice());
    let found = lookup(&s.cache, GATEWAY);
    let known = table(&s.cache);
    (found, known.len())
}

/// A request for our own address is answered to its sender alone, from our own
/// address, and teaches the sender's binding.
pub proof fn law_request_for_us_is_answered(
    s: StackView,
    sha: MacAddr,
    spa: [u8; 4],
    tha: MacAddr,
)
    ensures
        handled(s, payload_of(OP_REQUEST, sha, spa, tha, IP)) == (StackView {
            cache: s.cache.insert(key(spa), sha),
            ..s
        }).logged(Event::ArpLearned { ip: spa, mac: sha }).transmitted(
            sha,
            ETHERTYPE_ARP,
            payload_of(OP_REPLY, s.our_mac(), IP, sha, spa),
        ).logged(Event::ArpReplied { mac: s.our_mac() }),
{
    law_payload_round_trip(OP_REQUEST, sha, spa, tha, IP);
}

/// Every byte of an ARP payload.
pub proof fn law_payload_layout(
    oper: u16,
    sha: MacAddr,
    spa: [u8; 4],
    tha: MacAddr,
    tpa: [u8; 4],
)
    ensures
        ({
            let p = payload_of(oper, sha, spa, tha, tpa);
            &&& p.len() == 28
            &&& p.subrange(0, 6) == seq![0u8, 1, 8, 0, 6, 4]
            &&& p[6] * 256 + p[7] == oper
            &&& p.subrange(8, 14) == sha.0@
            &&& p.subrange(14, 18) == spa@
            &&& p.subrange(18, 24) == tha.0@
            &&& p.subrange(24, 28) == tpa@
        }),
{
    let p = payload_of(oper, sha, spa, tha, tpa);
    assert(p.subrange(0, 6) =~= seq![0u8, 1, 8, 0, 6, 4]);
    assert(p.subrange(8, 14) =~= sha.0@);
    assert(p.subrange(14, 18) =~= spa@);
    assert(p.subrange(18, 24) =~= tha.0@);
    assert(p.subrange(24, 28) =~= tpa@);
}

/// Addresses are ordered byte by byte, the first byte first.
pub proof fn law_addresses_are_ordered(a: [u8; 4], b: [u8; 4])
    ensures
        a[0] < b[0] ==> key(a) < key(b),
        a[0] == b[0] && a[1] < b[1] ==> key(a) < key(b),
        a[0] == b[0] && a[1] == b[1] && a[2] < b[2] ==> key(a) < key(b),
        a[0] == b[0] && a[1] == b[1] && a[2] == b[2] && a[3] < b[3] ==> key(a) < key(b),
        key(a) == key(b) ==> a == b,
{
    if key(a) == key(b) {
        lemma_key_injective(a, b);
    }
}

/// A request for 10.0.2.15 puts one frame on the wire: to its sender's address, an
/// ARP reply from ours that names both. A payload with another operation or for
/// another address puts none there.
pub proof fn law_reply_on_the_wire(s: StackView, a: Seq<u8>)
    requires
        a.len() >= 28,
        s.nic is Some,
    ensures
        ({
            let n = s.nic->0;
            let after = handled(s, a);
            let f = sent_frame(n, after.nic->0);
            if a[6] == 0 && a[7] == 1 && a.subrange(24, 28) == seq![10u8, 0, 2, 15] {
                &&& after.nic is Some
                &&& f.len() == 42
                &&& f.subrange(0, 6) == a.subrange(8, 14)
                &&& f.subrange(6, 12) == n.mac@
                &&& f.subrange(12, 22) == seq![8u8, 6, 0, 1, 8, 0, 6, 4, 0, 2]
                &&& f.subrange(22, 28) == n.mac@
                &&& f.subrange(28, 32) == seq![10u8, 0, 2, 15]
                &&& f.subrange(32, 38) == a.subrange(8, 14)
                &&& f.subrange(38, 42) == a.subrange(14, 18)
            } else {
                after.nic == s.nic
            }
        }),
{
    let n = s.nic->0;
    let after = handled(s, a);
    let tpa = four_at(a, 24);
    assert(tpa@ =~= a.subrange(24, 28));
    assert(IP@ =~= seq![10u8, 0, 2, 15]);
    if a.subrange(24, 28) == seq![10u8, 0, 2, 15] {
        assert(tpa =~= IP);
    }
    if u16_at(a, 6) == OP_REQUEST && tpa == IP {
        let sha = mac_at(a, 8);
        let spa = four_at(a, 14);
        let p = payload_of(OP_REPLY, s.our_mac(), IP, sha, spa);
        law_payload_layout(OP_REPLY, s.our_mac(), IP, sha, spa);
        let learned = StackView { cache: s.cache.insert(key(spa), sha), ..s }.logged(
            Event::ArpLearned { ip: spa, mac: sha },
        );
        super::law_transmitted_frame(learned, sha, ETHERTYPE_ARP, p);
        let f = sent_frame(n, after.nic->0);
        assert(sha.0@ =~= a.subrange(8, 14));
        assert(spa@ =~= a.subrange(14, 18));
        assert(f.skip(14) == p);
        assert(forall|i: int| 0 <= i < 28 ==> f[i + 14] == #[trigger] p[i]) by {
            assert forall|i: int| 0 <= i < 28 implies f[i + 14] == #[trigger] p[i] by {
                assert(f.skip(14)[i] == f[i + 14]);
            }
        }
        assert forall|i: int| 0 <= i < 6 implies f[12 + 2 + i] == seq![0u8, 1, 8, 0, 6, 4][i] by {
            assert(p.subrange(0, 6)[i] == p[i]);
            assert(f[i + 14] == p[i]);
        }
        assert(f[20] == p[6] && f[21] == p[7]);
        assert(f[14] == p[0] && f[15] == p[1] && f[16] == p[2] && f[17] == p[3] && f[18] == p[4]
            && f[19] == p[5]);
        assert(p.subrange(0, 6)[0] == p[0] && p.subrange(0, 6)[1] == p[1] && p.subrange(0, 6)[2]
            == p[2] && p.subrange(0, 6)[3] == p[3] && p.subrange(0, 6)[4] == p[4] && p.subrange(
            0,
            6,
        )[5] == p[5]);
        assert(f.subrange(12, 22) =~= seq![8u8, 6, 0, 1, 8, 0, 6, 4, 0, 2]);
        assert(f.subrange(22, 28) =~= p.subrange(8, 14));
        assert(f.subrange(28, 32) =~= p.subrange(14, 18));
        assert(f.subrange(32, 38) =~= p.subrange(18, 24));
        assert(f.subrange(38, 42) =~= p.subrange(24, 28));
    }
}

/// A request on the wire: to everyone, from our own address, asking for the target.
pub proof fn law_request_on_the_wire(s: StackView, target: [u8; 4])
    requires
        s.nic is Some,
    ensures
        ({
            let n = s.nic->0;
            let after = requested(s, target);
            let f = sent_frame(n, after.nic->0);
            &&& after.nic is Some
            &&& after.cache == s.cache
            &&& f.len() == 42
            &&& f.subrange(0, 6) == seq![0xffu8, 0xff, 0xff, 0xff, 0xff, 0xff]
            &&& f.subrange(6, 12) == n.mac@
            &&& f[12] == 8 && f[13] == 6
            &&& f.subrange(14, 20) == seq![0u8, 1, 8, 0, 6, 4]
            &&& f[20] == 0 && f[21] == 1
            &&& f.subrange(22, 28) == n.mac@
            &&& f.subrange(28, 32) == seq![10u8, 0, 2, 15]
            &&& f.subrange(32, 38) == seq![0u8, 0, 0, 0, 0, 0]
            &&& f.subrange(38, 42) == target@
        }),
{
    let n = s.nic->0;
    let none = MacAddr([0, 0, 0, 0, 0, 0]);
    let p = payload_of(OP_REQUEST, s.our_mac(), IP, none, target);
    law_payload_layout(OP_REQUEST, s.our_mac(), IP, none, target);
    super::law_transmitted_frame(s, MacAddr(MacAddr::BROADCAST), ETHERTYPE_ARP, p);
    let f = sent_frame(n, requested(s, target).nic->0);
    assert(f.skip(14) == p);
    assert(forall|i: int| 0 <= i < 28 ==> #[trigger] f.skip(14)[i] == f[i + 14]);
    assert(p[6] == f[20] && p[7] == f[21]);
    assert(f.subrange(14, 20) =~= p.subrange(0, 6));
    assert(f.subrange(22, 28) =~= p.subrange(8, 14));
    assert(f.subrange(28, 32) =~= p.subrange(14, 18));
    assert(f.subrange(32, 38) =~= p.subrange(18, 24));
    assert(f.subrange(38, 42) =~= p.subrange(24, 28));
    assert(IP@ =~= seq![10u8, 0, 2, 15]);
    assert(MacAddr::BROADCAST@ =~= seq![0xffu8, 0xff, 0xff, 0xff, 0xff, 0xff]);
    assert(none.0@ =~= seq![0u8, 0, 0, 0, 0, 0]);
}

} // verus!
