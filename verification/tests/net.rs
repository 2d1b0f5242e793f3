use simplelinux::drivers::e1000::{self, Desc, Nic, NicOp};
use simplelinux::fs::vfs::FsError;
use simplelinux::net::arp::{self, ArpCache};
use simplelinux::net::ethernet::{self, MacAddr};
use simplelinux::net::tcp::{self, TcpState};
use simplelinux::net::{self, icmp, ip, socket, udp, Event, Stack, GATEWAY, IP};

const MAC: [u8; 6] = [0x52, 0x54, 0x00, 0x12, 0x34, 0x56];
const PEER: MacAddr = MacAddr([2, 0, 0, 0, 0, 9]);

fn empty(addr: u64) -> Desc {
    Desc { addr, length: 0, tos: 0, cmd: 0, status: 0, css: 0, offset: 0 }
}

fn card() -> Nic {
    let mut rx_ring = Vec::new();
    let mut rx_data = Vec::new();
    let mut rx_bufs = Vec::new();
    for i in 0..8u64 {
        rx_ring.push(empty(0x10_0000 + i * 4096));
        rx_data.push(Vec::new());
        rx_bufs.push((0xffff_8000_0010_0000 + i * 4096, 0x10_0000 + i * 4096));
    }
    Nic {
        base: 0xffff_8000_fee0_0000,
        mac: MAC,
        rx_ring,
        rx_data,
        rx_bufs,
        rx_cursor: 0,
        tx_buf: 0xffff_8000_0020_0000,
        tx_buf_phys: 0x20_0000,
        tx_cursor: 0,
        rx_ring_phys: 0x30_0000,
        rx_ring_virt: 0xffff_8000_0030_0000,
        tx_ring_phys: 0x30_1000,
        tx_ring_virt: 0xffff_8000_0030_1000,
        ops: Vec::new(),
    }
}

fn stack() -> Stack {
    let mut s = Stack::new();
    s.nic = Some(card());
    s
}

/// The frames that were handed to the card, in order.
fn frames(s: &mut Stack) -> Vec<Vec<u8>> {
    let mut out = Vec::new();
    for op in s.nic.as_mut().unwrap().take_ops() {
        if let NicOp::TxBuffer(b) = op {
            out.push(b);
        }
    }
    out
}

#[test]
fn checksum_known_values() {
    assert_eq!(net::checksum(&[]), 0xffff);
    assert_eq!(net::checksum(&[0, 0]), 0xffff);
    assert_eq!(net::checksum(&[0xff, 0xff]), 0);
    assert_eq!(net::checksum(&[0x12]), 0xedff);
    assert_eq!(net::checksum(&[0x00, 0x01, 0xf2, 0x03, 0xf4, 0xf5, 0xf6, 0xf7]), 0x220d);
    // The classic IPv4 header example.
    let h = [
        0x45, 0x00, 0x00, 0x73, 0x00, 0x00, 0x40, 0x00, 0x40, 0x11, 0x00, 0x00, 0xc0, 0xa8, 0x00, 0x01,
        0xc0, 0xa8, 0x00, 0xc7,
    ];
    assert_eq!(net::checksum(&h), 0xb861);
}

#[test]
fn checksum_of_long_input_does_not_overflow() {
    let data = vec![0xffu8; 400_000];
    assert_eq!(net::checksum(&data), 0);
}

#[test]
fn filled_checksum_verifies() {
    let mut m = vec![8u8, 0, 0, 0, 1, 2, 3, 4, 5];
    let c = net::checksum(&m);
    m[2] = (c >> 8) as u8;
    m[3] = c as u8;
    assert_eq!(net::checksum(&m), 0);
}

#[test]
fn mac_is_rendered() {
    assert_eq!(MacAddr(MAC).fmt(), b"52:54:00:12:34:56".to_vec());
    assert_eq!(MacAddr(MacAddr::BROADCAST).fmt(), b"ff:ff:ff:ff:ff:ff".to_vec());
    assert_eq!(MacAddr([0, 0xab, 1, 0xcd, 9, 0xef]).fmt(), b"00:ab:01:cd:09:ef".to_vec());
}

#[test]
fn address_is_rendered() {
    assert_eq!(ip::fmt([10, 0, 2, 15]), "10.0.2.15");
    assert_eq!(ip::fmt([255, 100, 9, 0]), "255.100.9.0");
}

#[test]
fn frame_layout() {
    let f = ethernet::frame(PEER, MacAddr(MAC), 0x0806, &[1, 2, 3]);
    assert_eq!(f, vec![2, 0, 0, 0, 0, 9, 0x52, 0x54, 0, 0x12, 0x34, 0x56, 8, 6, 1, 2, 3]);
}

#[test]
fn arp_payload_layout() {
    let p = arp::payload(2, PEER, GATEWAY, MacAddr(MAC), IP);
    assert_eq!(
        p,
        vec![
            0, 1, 8, 0, 6, 4, 0, 2, 2, 0, 0, 0, 0, 9, 10, 0, 2, 2, 0x52, 0x54, 0, 0x12, 0x34, 0x56, 10, 0, 2,
            15
        ]
    );
}

#[test]
fn arp_request_is_broadcast() {
    let mut s = stack();
    arp::request(&mut s, GATEWAY);
    let f = frames(&mut s);
    assert_eq!(f.len(), 1);
    assert_eq!(&f[0][0..6], &[0xff; 6]);
    assert_eq!(&f[0][6..12], &MAC);
    assert_eq!(&f[0][12..14], &[8, 6]);
    assert_eq!(&f[0][20..22], &[0, 1]);
    assert_eq!(&f[0][38..42], &GATEWAY);
    assert_eq!(s.take_events(), vec![Event::ArpRequest { target: GATEWAY }]);
}

#[test]
fn arp_learns_sender_and_answers_for_us_only() {
    let mut s = stack();
    let other = arp::payload(1, PEER, [10, 0, 2, 9], MacAddr([0; 6]), [10, 0, 2, 77]);
    arp::handle(&mut s, &other);
    assert_eq!(arp::lookup(&s.cache, [10, 0, 2, 9]), Some(PEER));
    assert_eq!(arp::lookup(&s.cache, [10, 0, 2, 77]), None);
    assert!(frames(&mut s).is_empty());

    let ours = arp::payload(1, PEER, [10, 0, 2, 9], MacAddr([0; 6]), IP);
    arp::handle(&mut s, &ours);
    let f = frames(&mut s);
    assert_eq!(f.len(), 1);
    assert_eq!(&f[0][0..6], &PEER.0);
    assert_eq!(f[0][14..].to_vec(), arp::payload(2, MacAddr(MAC), IP, PEER, [10, 0, 2, 9]));
}

#[test]
fn arp_ignores_short_payload() {
    let mut s = stack();
    arp::handle(&mut s, &[0u8; 27]);
    assert!(s.take_events().is_empty());
    assert!(arp::table(&s.cache).is_empty());
}

#[test]
fn arp_table_is_sorted() {
    let mut s = stack();
    for last in [200u8, 3, 77, 4] {
        let p = arp::payload(2, MacAddr([last; 6]), [10, 0, 2, last], MacAddr(MAC), IP);
        arp::handle(&mut s, &p);
    }
    let p = arp::payload(2, MacAddr([1; 6]), [9, 255, 255, 255], MacAddr(MAC), IP);
    arp::handle(&mut s, &p);
    let t = arp::table(&s.cache);
    let ips: Vec<[u8; 4]> = t.iter().map(|x| x.0).collect();
    assert_eq!(ips, vec![[9, 255, 255, 255], [10, 0, 2, 3], [10, 0, 2, 4], [10, 0, 2, 77], [10, 0, 2, 200]]);
    assert_eq!(t[4].1, MacAddr([200; 6]));
    arp::init(&mut s.cache);
    assert!(arp::table(&s.cache).is_empty());
}

#[test]
fn arp_cache_rebinding() {
    let mut s = stack();
    arp::handle(&mut s, &arp::payload(2, PEER, GATEWAY, MacAddr(MAC), IP));
    arp::handle(&mut s, &arp::payload(2, MacAddr([7; 6]), GATEWAY, MacAddr(MAC), IP));
    assert_eq!(arp::lookup(&s.cache, GATEWAY), Some(MacAddr([7; 6])));
    assert_eq!(arp::table(&s.cache).len(), 1);
    assert!(arp::table(&ArpCache::new()).is_empty());
}

#[test]
fn next_hop_prefers_host_then_gateway_then_broadcast() {
    let mut s = stack();
    assert_eq!(net::next_hop_mac(&s, [10, 0, 2, 9]), MacAddr(MacAddr::BROADCAST));
    arp::handle(&mut s, &arp::payload(2, PEER, GATEWAY, MacAddr(MAC), IP));
    assert_eq!(net::next_hop_mac(&s, [10, 0, 2, 9]), PEER);
    arp::handle(&mut s, &arp::payload(2, MacAddr([7; 6]), [10, 0, 2, 9], MacAddr(MAC), IP));
    assert_eq!(net::next_hop_mac(&s, [10, 0, 2, 9]), MacAddr([7; 6]));
}

#[test]
fn ip_header_layout_and_checksum() {
    let h = ip::header(17, IP, GATEWAY, 48);
    assert_eq!(h.len(), 20);
    assert_eq!(&h[0..10], &[0x45, 0, 0, 48, 0, 1, 0x40, 0, 64, 17]);
    assert_eq!(&h[12..16], &IP);
    assert_eq!(&h[16..20], &GATEWAY);
    assert_eq!(net::checksum(&h), 0);
}

#[test]
fn echo_request_and_reply() {
    let req = icmp::echo_request(7, 1, b"hi");
    assert_eq!(req, vec![8, 0, 0x8f, 0x8e, 0, 7, 0, 1, b'h', b'i']);
    assert_eq!(net::checksum(&req), 0);
    let rep = icmp::echo_reply(&req);
    assert_eq!(rep[0], 0);
    assert_eq!(rep, vec![0, 0, 0x97, 0x8e, 0, 1, 0, 7, b'h', b'i']);
    assert_eq!(icmp::echo_reply(&rep)[4..8], req[4..8]);
    // Too short for identifier and sequence number: none to swap.
    assert_eq!(icmp::echo_reply(&[8, 9, 1, 2, 5])[4], 5);
    assert_eq!(net::checksum(&rep), 0);
}

#[test]
fn echo_request_is_answered() {
    let mut s = stack();
    let req = icmp::echo_request(0x1234, 1, b"simplelinux");
    icmp::handle(&mut s, GATEWAY, &req);
    let f = frames(&mut s);
    assert_eq!(f.len(), 1);
    assert_eq!(&f[0][12..14], &[8, 0]);
    assert_eq!(f[0][23], 1);
    assert_eq!(f[0][34..].to_vec(), icmp::echo_reply(&req));
    assert_eq!(s.take_events(), vec![Event::EchoRequest { src: GATEWAY, data: 11 }]);
}

#[test]
fn icmp_reports_replies_and_unknown_types() {
    let mut s = stack();
    let rep = icmp::echo_reply(&icmp::echo_request(0x5f, 3, b"x"));
    icmp::handle(&mut s, GATEWAY, &rep);
    icmp::handle(&mut s, GATEWAY, &[13, 0, 0, 0, 0, 0, 0, 0]);
    icmp::handle(&mut s, GATEWAY, &[8, 0, 0]);
    assert_eq!(
        s.take_events(),
        vec![Event::EchoReply { src: GATEWAY, id: 3, seq: 0x5f }, Event::UnhandledControl(13)]
    );
    assert!(frames(&mut s).is_empty());
}

#[test]
fn ping_sends_a_request() {
    let mut s = stack();
    icmp::ping(&mut s, GATEWAY, 2);
    let f = frames(&mut s);
    assert_eq!(f[0][34..].to_vec(), icmp::echo_request(0x5f, 2, b"simplelinux-ping"));
    assert_eq!(s.take_events(), vec![Event::Ping { dst: GATEWAY, seq: 2, len: 24 }]);
}

#[test]
fn datagram_crosses_from_one_stack_to_another() {
    let mut a = stack();
    assert!(udp::send(&mut a, 1111, IP, 2222, b"payload"));
    let f = frames(&mut a);
    let mut b = stack();
    let sock = socket::socket(&mut b.sockets, ip::PROTO_UDP);
    assert!(socket::bind(&mut b.sockets, sock, 2222));
    assert!(ethernet::accepts(&f[0]));
    ethernet::handle(&mut b, &f[0]);
    let mut buf = [0u8; 32];
    assert_eq!(socket::recvfrom(&mut b.sockets, sock, &mut buf), Some((7, IP, 1111)));
    assert_eq!(&buf[..7], b"payload");
    assert_eq!(
        b.take_events(),
        vec![
            Event::IpReceived { src: IP, proto: 17, len: 35 },
            Event::UdpReceived { src: IP, sport: 1111, dport: 2222, len: 7 },
            Event::Delivered { len: 7, sockets: 1, port: 2222 }
        ]
    );
}

#[test]
fn udp_checksum_covers_pseudo_header() {
    let mut s = stack();
    udp::send(&mut s, 1, GATEWAY, 2, b"abc");
    let f = frames(&mut s);
    let d = &f[0][34..];
    assert_eq!(d.len(), 11);
    let mut pseudo = Vec::new();
    pseudo.extend_from_slice(&IP);
    pseudo.extend_from_slice(&GATEWAY);
    pseudo.extend_from_slice(&[0, 17, 0, 11]);
    pseudo.extend_from_slice(d);
    assert_eq!(net::checksum(&pseudo), 0);
}

#[test]
fn udp_length_field_bounds_the_data() {
    let mut s = stack();
    let sock = socket::socket(&mut s.sockets, 17);
    socket::bind(&mut s.sockets, sock, 5);
    // length 10: two data bytes, though four follow.
    udp::handle(&mut s, GATEWAY, &[0, 1, 0, 5, 0, 10, 0, 0, 9, 8, 7, 6]);
    // length 3: shorter than a header, so no data.
    udp::handle(&mut s, GATEWAY, &[0, 1, 0, 5, 0, 3, 0, 0, 9, 8]);
    // length 99: longer than the datagram.
    udp::handle(&mut s, GATEWAY, &[0, 1, 0, 5, 0, 99, 0, 0, 9, 8]);
    // too short for a header.
    udp::handle(&mut s, GATEWAY, &[0, 1, 0, 5, 0, 3, 0]);
    let mut buf = [0u8; 8];
    assert_eq!(socket::recvfrom(&mut s.sockets, sock, &mut buf), Some((2, GATEWAY, 1)));
    assert_eq!(&buf[..2], &[9, 8]);
    assert_eq!(socket::recvfrom(&mut s.sockets, sock, &mut buf), Some((0, GATEWAY, 1)));
    assert_eq!(socket::recvfrom(&mut s.sockets, sock, &mut buf), Some((2, GATEWAY, 1)));
    assert_eq!(socket::recvfrom(&mut s.sockets, sock, &mut buf), None);
}

#[test]
fn tcp_flag_names() {
    assert_eq!(tcp::flag_names(0x02), "SYN");
    assert_eq!(tcp::flag_names(0x12), "SYN-ACK");
    assert_eq!(tcp::flag_names(0x10), "ACK");
    assert_eq!(tcp::flag_names(0x11), "FIN-ACK");
    assert_eq!(tcp::flag_names(0x04), "RST");
    assert_eq!(tcp::flag_names(0x00), "?");
    assert_eq!(tcp::flag_names(0x5002), "SYN");
}

#[test]
fn tcp_segment_layout_and_checksum() {
    let t = tcp::segment(80, 51000, 1000, 778, 0x12, &[1, 2, 3], GATEWAY);
    assert_eq!(
        &t[..16],
        &[0, 80, 0xc7, 0x38, 0, 0, 3, 0xe8, 0, 0, 3, 0x0a, 0x50, 0x12, 2, 0x18]
    );
    assert_eq!(&t[18..], &[0, 0, 1, 2, 3]);
    let mut pseudo = Vec::new();
    pseudo.extend_from_slice(&IP);
    pseudo.extend_from_slice(&GATEWAY);
    pseudo.extend_from_slice(&[0, 6, 0, 23]);
    pseudo.extend_from_slice(&t);
    assert_eq!(net::checksum(&pseudo), 0);
}

#[test]
fn syn_is_answered_by_syn_ack() {
    let mut s = stack();
    let syn = tcp::segment(51000, 80, 777, 0, 0x02, &[], IP);
    tcp::handle(&mut s, GATEWAY, &syn);
    let f = frames(&mut s);
    assert_eq!(f.len(), 1);
    assert_eq!(f[0][34..].to_vec(), tcp::segment(80, 51000, 1000, 778, 0x12, &[], GATEWAY));
    assert_eq!(
        s.take_events(),
        vec![
            Event::TcpReceived { src: GATEWAY, sport: 51000, dport: 80, flags: 0x5002, number: 777, ack: 0 },
            Event::TcpTransition { from: TcpState::Listen, to: TcpState::SynReceived, port: 80 }
        ]
    );
}

#[test]
fn syn_with_last_sequence_number_wraps() {
    let mut s = stack();
    let syn = tcp::segment(1, 2, u32::MAX, 0, 0x02, &[], IP);
    tcp::handle(&mut s, GATEWAY, &syn);
    let f = frames(&mut s);
    assert_eq!(f[0][34..].to_vec(), tcp::segment(2, 1, 1000, 0, 0x12, &[], GATEWAY));
}

#[test]
fn ack_is_not_answered() {
    let mut s = stack();
    tcp::handle(&mut s, GATEWAY, &tcp::segment(1, 2, 3, 4, 0x12, &[], IP));
    tcp::handle(&mut s, GATEWAY, &tcp::segment(1, 2, 3, 4, 0x10, &[], IP));
    tcp::handle(&mut s, GATEWAY, &[0u8; 19]);
    assert!(frames(&mut s).is_empty());
    assert_eq!(s.take_events().len(), 2);
}

#[test]
fn bare_segment_is_sent() {
    let mut s = stack();
    assert!(tcp::send_segment(&mut s, 9, GATEWAY, 10, 11, 12, 0x10));
    assert_eq!(frames(&mut s)[0][34..].to_vec(), tcp::segment(9, 10, 11, 12, 0x10, &[], GATEWAY));
    assert!(!tcp::send_segment(&mut Stack::new(), 9, GATEWAY, 10, 11, 12, 0x10));
    assert_eq!(tcp::MSS, 536);
}

#[test]
fn malformed_packets_are_reported() {
    let mut s = stack();
    ip::handle(&mut s, &[0x45; 19]);
    ip::handle(&mut s, &[0x65; 20]);
    let mut p = ip::header(99, GATEWAY, IP, 20);
    ip::handle(&mut s, &p);
    assert_eq!(
        s.take_events(),
        vec![
            Event::MalformedIp { len: 19 },
            Event::MalformedIp { len: 20 },
            Event::IpReceived { src: GATEWAY, proto: 99, len: 20 },
            Event::UnsupportedProtocol(99)
        ]
    );
    // A header that claims to be longer than its packet cannot be sliced.
    p[0] = 0x4f;
    assert!(!ip::accepts(&p));
    p[0] = 0x45;
    p[3] = 19;
    assert!(!ip::accepts(&p));
    p[3] = 20;
    assert!(ip::accepts(&p));
    assert!(ip::accepts(&[0u8; 3]));
}

#[test]
fn header_options_are_skipped() {
    let mut s = stack();
    let sock = socket::socket(&mut s.sockets, 17);
    socket::bind(&mut s.sockets, sock, 5);
    let mut p = ip::header(17, GATEWAY, IP, 34);
    p[0] = 0x46;
    p.extend_from_slice(&[0, 0, 0, 0]);
    p.extend_from_slice(&[0, 1, 0, 5, 0, 10, 0, 0, 9, 8, 0xee, 0xee]);
    assert!(ip::accepts(&p));
    ip::handle(&mut s, &p);
    let mut buf = [0u8; 8];
    assert_eq!(socket::recvfrom(&mut s.sockets, sock, &mut buf), Some((2, GATEWAY, 1)));
}

#[test]
fn unknown_ethertype_is_reported() {
    let mut s = stack();
    let f = ethernet::frame(PEER, PEER, 0x86dd, &[1, 2, 3]);
    assert!(ethernet::accepts(&f));
    ethernet::handle(&mut s, &f);
    ethernet::handle(&mut s, &f[..13]);
    assert_eq!(s.take_events(), vec![Event::UnknownEtherType { ethertype: 0x86dd, len: 3 }]);
}

#[test]
fn sockets_reuse_the_first_free_slot() {
    let mut s = Stack::new();
    assert_eq!(socket::socket(&mut s.sockets, 17), 0);
    assert_eq!(socket::socket(&mut s.sockets, 6), 1);
    assert_eq!(socket::socket(&mut s.sockets, 17), 2);
    socket::close(&mut s.sockets, 1);
    socket::close(&mut s.sockets, 99);
    assert_eq!(socket::socket(&mut s.sockets, 17), 1);
    assert_eq!(socket::info(&s.sockets).len(), 3);
    socket::init(&mut s.sockets);
    assert!(socket::info(&s.sockets).is_empty());
}

#[test]
fn bind_and_connect_need_an_open_socket() {
    let mut s = Stack::new();
    let i = socket::socket(&mut s.sockets, 17);
    assert!(socket::bind(&mut s.sockets, i, 80));
    assert!(socket::connect(&mut s.sockets, i, GATEWAY, 81));
    assert_eq!(socket::info(&s.sockets), vec![(0, 17, 80, Some((GATEWAY, 81)), 0)]);
    socket::close(&mut s.sockets, i);
    assert!(!socket::bind(&mut s.sockets, i, 80));
    assert!(!socket::connect(&mut s.sockets, 7, GATEWAY, 81));
}

#[test]
fn delivery_reaches_every_bound_udp_socket() {
    let mut s = Stack::new();
    let a = socket::socket(&mut s.sockets, 17);
    let b = socket::socket(&mut s.sockets, 17);
    let t = socket::socket(&mut s.sockets, 6);
    let c = socket::socket(&mut s.sockets, 17);
    for i in [a, b, t] {
        socket::bind(&mut s.sockets, i, 7);
    }
    socket::bind(&mut s.sockets, c, 8);
    socket::deliver(&mut s, 7, GATEWAY, 4242, b"one");
    socket::deliver(&mut s, 7, GATEWAY, 4242, b"two");
    let queues: Vec<usize> = socket::info(&s.sockets).iter().map(|x| x.4).collect();
    assert_eq!(queues, vec![2, 2, 0, 0]);
    let mut buf = [0u8; 2];
    assert_eq!(socket::recvfrom(&mut s.sockets, a, &mut buf), Some((2, GATEWAY, 4242)));
    assert_eq!(&buf, b"on");
    assert_eq!(socket::recvfrom(&mut s.sockets, a, &mut buf), Some((2, GATEWAY, 4242)));
    assert_eq!(&buf, b"tw");
    assert_eq!(socket::recvfrom(&mut s.sockets, a, &mut buf), None);
    assert_eq!(socket::recvfrom(&mut s.sockets, 50, &mut buf), None);
}

#[test]
fn unbound_socket_receives_nothing() {
    let mut s = Stack::new();
    socket::socket(&mut s.sockets, 17);
    socket::deliver(&mut s, 0, GATEWAY, 7, b"x");
    assert_eq!(socket::info(&s.sockets), vec![(0, 17, 0, None, 0)]);
    assert!(s.take_events().is_empty());
}

#[test]
fn sendto_needs_udp_and_a_card() {
    let mut s = stack();
    let u = socket::socket(&mut s.sockets, 17);
    let t = socket::socket(&mut s.sockets, 6);
    assert_eq!(socket::sendto(&mut s, u, GATEWAY, 9, b"abc"), Ok(3));
    assert_eq!(socket::sendto(&mut s, t, GATEWAY, 9, b"abc"), Err(FsError::InvalidArg));
    assert_eq!(socket::sendto(&mut s, 9, GATEWAY, 9, b"abc"), Err(FsError::InvalidArg));
    s.nic = None;
    assert_eq!(socket::sendto(&mut s, u, GATEWAY, 9, b"abc"), Err(FsError::Io));
}

#[test]
fn send_queues_buffer_descriptor_and_doorbell() {
    let mut s = stack();
    for k in 0..9usize {
        assert!(e1000::send(&mut s.nic, &[k as u8; 5]));
        let ops = s.nic.as_mut().unwrap().take_ops();
        assert_eq!(ops.len(), 3);
        assert!(matches!(&ops[0], NicOp::TxBuffer(b) if *b == vec![k as u8; 5]));
        let d = Desc { addr: 0x20_0000, length: 5, tos: 0, cmd: 0x19, status: 0, css: 0, offset: 0 };
        assert!(matches!(&ops[1], NicOp::TxDesc(i, x) if *i == k % 8 && *x == d));
        assert!(matches!(&ops[2], NicOp::Register(0x3818, t) if *t as usize == (k + 1) % 8));
    }
    assert!(!e1000::send(&mut None, &[1]));
    assert_eq!(net::our_mac(&Stack::new()), MacAddr([0; 6]));
    assert_eq!(e1000::mac_address(&s.nic), Some(MAC));
}

#[test]
fn poll_receive_takes_frames_in_ring_order() {
    let mut s = stack();
    assert_eq!(e1000::poll_receive(&mut s.nic), None);
    let n = s.nic.as_mut().unwrap();
    let done = |len: u16| Desc { addr: 1, length: len, tos: 0, cmd: 0, status: 1, css: 0, offset: 0 };
    n.load_rx(0, done(3), vec![1, 2, 3, 4, 5]);
    n.load_rx(1, done(2), vec![9, 8, 7]);
    // Done, but empty.
    n.load_rx(2, done(0), vec![1]);
    assert_eq!(e1000::poll_receive(&mut s.nic), Some(vec![1, 2, 3]));
    assert_eq!(e1000::poll_receive(&mut s.nic), Some(vec![9, 8]));
    assert_eq!(e1000::poll_receive(&mut s.nic), None);
    let n = s.nic.as_mut().unwrap();
    assert_eq!(n.rx_ring[0], empty(0x10_0000));
    assert_eq!(n.rx_cursor, 2);
    let ops = n.take_ops();
    assert!(matches!(&ops[0], NicOp::RxDesc(0, d) if *d == empty(0x10_0000)));
    assert!(matches!(&ops[1], NicOp::Register(0x2818, 0)));
    assert!(matches!(&ops[3], NicOp::Register(0x2818, 1)));
    assert_eq!(e1000::rx_debug(&s.nic), Some(vec![0, 0, 1, 0, 0, 0, 0, 0]));
    assert_eq!(e1000::rx_debug(&None), None);
}

#[test]
fn pump_handles_what_waits() {
    let mut s = stack();
    let f = ethernet::frame(
        MacAddr(MAC),
        PEER,
        ethernet::ETHERTYPE_ARP,
        &arp::payload(1, PEER, [10, 0, 2, 9], MacAddr([0; 6]), IP),
    );
    for i in 0..3 {
        let d = Desc { addr: 1, length: f.len() as u16, tos: 0, cmd: 0, status: 1, css: 0, offset: 0 };
        s.nic.as_mut().unwrap().load_rx(i, d, f.clone());
    }
    assert_eq!(net::pump(&mut s), 3);
    assert_eq!(net::pump(&mut s), 0);
    assert_eq!(frames(&mut s).len(), 3);
    assert_eq!(arp::lookup(&s.cache, [10, 0, 2, 9]), Some(PEER));
    assert_eq!(net::pump(&mut Stack::new()), 0);
}

#[test]
fn only_frames_in_a_row_have_to_be_decodable() {
    let mut s = stack();
    let good = ethernet::frame(PEER, PEER, 0x86dd, &[1, 2, 3]);
    let mut p = ip::header(17, GATEWAY, IP, 20);
    p[0] = 0x4f;
    let bad = ethernet::frame(PEER, PEER, ethernet::ETHERTYPE_IP, &p);
    let done = |f: &Vec<u8>| Desc { addr: 1, length: f.len() as u16, tos: 0, cmd: 0, status: 1, css: 0, offset: 0 };
    let n = s.nic.as_mut().unwrap();
    n.load_rx(0, done(&good), good.clone());
    n.load_rx(2, done(&bad), bad.clone());
    assert!(net::can_pump(&s));
    assert_eq!(net::pump(&mut s), 1);
    // Once the slot between is filled, the bad frame is reached.
    let n = s.nic.as_mut().unwrap();
    n.load_rx(1, done(&good), good.clone());
    assert!(!net::can_pump(&s));
    assert!(net::can_pump(&Stack::new()));
}

#[test]
fn init_forgets_bindings_and_sockets() {
    let mut s = stack();
    arp::handle(&mut s, &arp::payload(2, PEER, GATEWAY, MacAddr(MAC), IP));
    socket::socket(&mut s.sockets, 17);
    net::init(&mut s);
    assert_eq!(arp::lookup(&s.cache, GATEWAY), None);
    assert!(socket::info(&s.sockets).is_empty());
    assert_eq!(net::our_mac(&s), MacAddr(MAC));
}

#[test]
fn layer_self_tests() {
    let mut s = stack();
    assert_eq!(arp::demo(&mut s), (Some(MacAddr(arp::DEMO_MAC)), 1));
    assert_eq!(ip::demo(&mut s), MacAddr(arp::DEMO_MAC));
    assert_eq!(icmp::demo(&mut s), (true, 0, true));
    let (sock, got, buf) = udp::demo(&mut s);
    assert_eq!((sock, got), (0, Some((14, GATEWAY, 7))));
    assert_eq!(&buf[..14], b"hello over udp");
    assert_eq!(buf.len(), 64);
    assert!(socket::info(&s.sockets).is_empty());
    tcp::demo(&mut s);
    // Two echo replies and a SYN-ACK went out.
    assert_eq!(frames(&mut s).len(), 3);
}

#[test]
fn echo_request_in_a_frame_is_answered() {
    let mut s = stack();
    let req = icmp::echo_request(9, 4, b"abc");
    let mut pkt = ip::header(ip::PROTO_ICMP, GATEWAY, IP, 31);
    pkt.extend_from_slice(&req);
    let f = ethernet::frame(MacAddr(MAC), PEER, ethernet::ETHERTYPE_IP, &pkt);
    assert!(ethernet::accepts(&f));
    ethernet::handle(&mut s, &f);
    assert_eq!(
        s.take_events(),
        vec![
            Event::IpReceived { src: GATEWAY, proto: 1, len: 31 },
            Event::EchoRequest { src: GATEWAY, data: 3 }
        ]
    );
    let out = frames(&mut s);
    assert_eq!(&out[0][30..34], &GATEWAY);
    assert_eq!(out[0][34..].to_vec(), icmp::echo_reply(&req));
}

#[test]
fn length_fields_hold_sixteen_bits() {
    let mut s = stack();
    let data = vec![0u8; 65536];
    assert!(udp::send(&mut s, 1, GATEWAY, 2, &data));
    let out = frames(&mut s);
    // 65536 + 8 and 65536 + 28, modulo 65536.
    assert_eq!(&out[0][38..40], &[0, 8]);
    assert_eq!(&out[0][16..18], &[0, 28]);
}
