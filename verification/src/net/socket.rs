//! BSD-style sockets layered on the stack.
//!
//! A network endpoint is a file: a socket slot is wrapped in an inode, so that
//! ordinary reads and writes move datagrams too.
use std::collections::VecDeque;
use vstd::prelude::*;
use super::ip::PROTO_UDP;
use super::{sent_frame, udp, Event, Stack, StackView, GATEWAY};
use crate::bytes::{copy_into, extend, fitting, overlaid};
use crate::fs::vfs::{FsError, FsResult, Inode, InodeView};
use crate::fs::{Vfs, VfsView};
use crate::system::{System, SystemView};

verus! {

/// A received datagram: sender address, sender port, data.
pub struct Datagram {
    pub src: [u8; 4],
    pub sport: u16,
    pub data: Vec<u8>,
}

/// What a [`Datagram`] holds.
pub struct DatagramView {
    pub src: [u8; 4],
    pub sport: u16,
    pub data: Seq<u8>,
}

impl View for Datagram {
    type V = DatagramView;

    open spec fn view(&self) -> DatagramView {
        DatagramView { src: self.src, sport: self.sport, data: self.data@ }
    }
}

/// One endpoint: a protocol, an optional bound port, an optional peer, and a
/// queue of datagrams that wait to be received.
pub struct Socket {
    pub proto: u8,
    pub local_port: u16,
    pub peer: Option<([u8; 4], u16)>,
    pub rx: VecDeque<Datagram>,
}

/// The state of a [`Socket`].
#[verifier::ext_equal]
pub struct SocketView {
    pub proto: u8,
    pub local_port: u16,
    pub peer: Option<([u8; 4], u16)>,
    pub rx: Seq<DatagramView>,
}

impl View for Socket {
    type V = SocketView;

    open spec fn view(&self) -> SocketView {
        SocketView {
            proto: self.proto,
            local_port: self.local_port,
            peer: self.peer,
            rx: self.rx@.map_values(|d: Datagram| d@),
        }
    }
}

/// All sockets; a free slot is `None`.
pub struct SocketTable {
    pub slots: Vec<Option<Socket>>,
}

/// The state of one slot.
pub open spec fn slot_view(s: Option<Socket>) -> Option<SocketView> {
    match s {
        Some(x) => Some(x@),
        None => None,
    }
}

impl View for SocketTable {
    type V = Seq<Option<SocketView>>;

    open spec fn view(&self) -> Seq<Option<SocketView>> {
        self.slots@.map_values(|s: Option<Socket>| slot_view(s))
    }
}

/// The socket in slot `i`, if there is one.
pub open spec fn open_socket(t: Seq<Option<SocketView>>, i: int) -> Option<SocketView> {
    if 0 <= i < t.len() {
        t[i]
    } else {
        None
    }
}

impl SocketTable {
    pub fn new() -> (r: SocketTable)
        ensures
            r@ == Seq::<Option<SocketView>>::empty(),
    {
        let r = SocketTable { slots: Vec::new() };
        assert(r@ =~= Seq::<Option<SocketView>>::empty());
        r
    }
}

/// Reset the table.
pub fn init(t: &mut SocketTable)
    ensures
        final(t)@ == Seq::<Option<SocketView>>::empty(),
{
    t.slots.clear();
    assert(t@ =~= Seq::<Option<SocketView>>::empty());
}

/// A socket that is neither bound nor connected.
pub open spec fn fresh(proto: u8) -> SocketView {
    SocketView { proto, local_port: 0, peer: None, rx: seq![] }
}

/// Whether `i` is the first free slot of `t`, or the one behind its end if no
/// slot is free.
pub open spec fn first_free(t: Seq<Option<SocketView>>, i: int) -> bool {
    &&& 0 <= i <= t.len()
    &&& i < t.len() ==> t[i] is None
    &&& forall|j: int| 0 <= j < i ==> t[j] is Some
}

/// The slot that the next socket takes.
pub open spec fn free_slot(t: Seq<Option<SocketView>>) -> int {
    choose|i: int| first_free(t, i)
}

pub(crate) proof fn lemma_slot_exists(t: Seq<Option<SocketView>>, i: int)
    requires
        0 <= i <= t.len(),
        forall|j: int| 0 <= j < i ==> (#[trigger] t[j]) is Some,
    ensures
        exists|k: int| first_free(t, k),
    decreases t.len() - i,
{
    if i == t.len() || t[i] is None {
        assert(first_free(t, i));
    } else {
        lemma_slot_exists(t, i + 1);
    }
}

proof fn lemma_free_slot(t: Seq<Option<SocketView>>, i: int)
    requires
        first_free(t, i),
    ensures
        free_slot(t) == i,
{
    let j = free_slot(t);
    assert(first_free(t, j));
}

/// `t` with `s` in slot `i`, which may be the one behind its end.
pub open spec fn with_socket(t: Seq<Option<SocketView>>, i: int, s: SocketView) -> Seq<
    Option<SocketView>,
> {
    if i == t.len() {
        t.push(Some(s))
    } else {
        t.update(i, Some(s))
    }
}

/// Allocate an unbound socket; returns its index (our "file handle" number).
pub fn socket(t: &mut SocketTable, proto: u8) -> (i: usize)
    ensures
        first_free(old(t)@, i as int),
        i == free_slot(old(t)@),
        final(t)@ == with_socket(old(t)@, i as int, fresh(proto)),
{
    let s = Socket { proto, local_port: 0, peer: None, rx: VecDeque::new() };
    assert(s@ =~= fresh(proto));
    let mut i: usize = 0;
    while i < t.slots.len()
        invariant
            i <= t.slots@.len(),
            *t == *old(t),
            s@ == fresh(proto),
            forall|j: int| 0 <= j < i ==> t@[j] is Some,
        decreases t.slots@.len() - i,
    {
        if t.slots[i].is_none() {
            t.slots[i] = Some(s);
            assert(t@ =~= with_socket(old(t)@, i as int, fresh(proto)));
            proof {
                lemma_free_slot(old(t)@, i as int);
            }
            return i;
        }
        i = i + 1;
    }
    t.slots.push(Some(s));
    assert(t@ =~= with_socket(old(t)@, i as int, fresh(proto)));
    proof {
        lemma_free_slot(old(t)@, i as int);
    }
    t.slots.len() - 1
}

/// `t` with the socket in slot `i`, if there is one, bound to `port`.
pub open spec fn bound(t: Seq<Option<SocketView>>, i: int, port: u16) -> Seq<Option<SocketView>> {
    match open_socket(t, i) {
        Some(s) => t.update(i, Some(SocketView { local_port: port, ..s })),
        None => t,
    }
}

/// Bind a socket to a local UDP port so the RX path can route to it.
pub fn bind(t: &mut SocketTable, idx: usize, port: u16) -> (r: bool)
    ensures
        r == (open_socket(old(t)@, idx as int) is Some),
        final(t)@ == bound(old(t)@, idx as int, port),
{
    if idx >= t.slots.len() {
        return false;
    }
    let r = match &mut t.slots[idx] {
        Some(s) => {
            s.local_port = port;
            true
        },
        None => false,
    };
    assert(t@ =~= bound(old(t)@, idx as int, port));
    r
}

/// `t` with the socket in slot `i`, if there is one, connected to a peer.
pub open spec fn connected(
    t: Seq<Option<SocketView>>,
    i: int,
    ip: [u8; 4],
    port: u16,
) -> Seq<Option<SocketView>> {
    match open_socket(t, i) {
        Some(s) => t.update(i, Some(SocketView { peer: Some((ip, port)), ..s })),
        None => t,
    }
}

/// Remember the default peer a socket talks to (used by `write`/`send`).
pub fn connect(t: &mut SocketTable, idx: usize, ip: [u8; 4], port: u16) -> (r: bool)
    ensures
        r == (open_socket(old(t)@, idx as int) is Some),
        final(t)@ == connected(old(t)@, idx as int, ip, port),
{
    if idx >= t.slots.len() {
        return false;
    }
    let r = match &mut t.slots[idx] {
        Some(s) => {
            s.peer = Some((ip, port));
            true
        },
        None => false,
    };
    assert(t@ =~= connected(old(t)@, idx as int, ip, port));
    r
}

/// Free a socket slot.
pub fn close(t: &mut SocketTable, idx: usize)
    ensures
        final(t)@ == if idx < old(t)@.len() {
            old(t)@.update(idx as int, None)
        } else {
            old(t)@
        },
{
    if idx < t.slots.len() {
        t.slots[idx] = None;
        assert(t@ =~= old(t)@.update(idx as int, None));
    }
}

/// What `sendto` returns and does: only a UDP socket sends, and only through a
/// card that is present.
pub open spec fn sent_to(
    s: StackView,
    idx: int,
    dst: [u8; 4],
    port: u16,
    data: Seq<u8>,
) -> (FsResult<usize>, StackView) {
    match open_socket(s.sockets, idx) {
        Some(x) if x.proto == PROTO_UDP => {
            let after = udp::sent(s, x.local_port, dst, port, data);
            if s.nic is Some {
                (Ok(data.len() as usize), after)
            } else {
                (Err(FsError::Io), after)
            }
        },
        _ => (Err(FsError::InvalidArg), s),
    }
}

/// `sendto`: dispatch by protocol. Returns bytes written or an error.
pub fn sendto(s: &mut Stack, idx: usize, dst: [u8; 4], port: u16, data: &[u8]) -> (r: FsResult<usize>)
    ensures
        (r, final(s)@) == sent_to(old(s)@, idx as int, dst, port, data@),
{
    if idx >= s.sockets.slots.len() {
        return Err(FsError::InvalidArg);
    }
    let (proto, sport) = match &s.sockets.slots[idx] {
        Some(x) => (x.proto, x.local_port),
        None => (0u8, 0u16),
    };
    if proto != PROTO_UDP {
        return Err(FsError::InvalidArg);
    }
    if udp::send(s, sport, dst, port, data) {
        Ok(data.len())
    } else {
        Err(FsError::Io)
    }
}

/// The oldest datagram that waits in slot `i`.
pub open spec fn oldest(t: Seq<Option<SocketView>>, i: int) -> Option<DatagramView> {
    match open_socket(t, i) {
        Some(s) if s.rx.len() > 0 => Some(s.rx[0]),
        _ => None,
    }
}

/// `t` without the oldest datagram in slot `i`, if there is one.
pub open spec fn received(t: Seq<Option<SocketView>>, i: int) -> Seq<Option<SocketView>> {
    match open_socket(t, i) {
        Some(s) if s.rx.len() > 0 => t.update(i, Some(SocketView { rx: s.rx.skip(1), ..s })),
        _ => t,
    }
}

/// `recvfrom`: pop one queued datagram (non-blocking). What does not fit in
/// `buf` is lost.
pub fn recvfrom(t: &mut SocketTable, idx: usize, buf: &mut [u8]) -> (r: Option<(usize, [u8; 4], u16)>)
    ensures
        final(t)@ == received(old(t)@, idx as int),
        match oldest(old(t)@, idx as int) {
            Some(d) => {
                &&& r == Some((fitting(d.data, old(buf)@.len()) as usize, d.src, d.sport))
                &&& final(buf)@ == overlaid(old(buf)@, d.data)
            },
            None => r is None && final(buf)@ == old(buf)@,
        },
{
    if idx >= t.slots.len() {
        return None;
    }
    let ghost before = t@;
    let popped = match &mut t.slots[idx] {
        Some(s) => {
            let ghost was = s@;
            let d = s.rx.pop_front();
            assert(s@ =~= (SocketView {
                rx: if was.rx.len() > 0 {
                    was.rx.skip(1)
                } else {
                    was.rx
                },
                ..was
            }));
            d
        },
        None => None,
    };
    assert(t@ =~= received(before, idx as int));
    match popped {
        Some(d) => {
            let n: usize = copy_into(buf, d.data.as_slice());
            Some((n, d.src, d.sport))
        },
        None => None,
    }
}

/// Whether datagrams for `dport` go to `s`: it is a UDP socket that is bound to the
/// port. A socket whose port is zero is not bound.
pub open spec fn wants(s: Option<SocketView>, dport: u16) -> bool {
    s is Some && s->0.proto == PROTO_UDP && s->0.local_port != 0 && s->0.local_port == dport
}

/// `s` with `d` queued, if datagrams for `dport` go to it.
pub open spec fn slot_delivered(s: Option<SocketView>, dport: u16, d: DatagramView) -> Option<
    SocketView,
> {
    if wants(s, dport) {
        Some(SocketView { rx: s->0.rx.push(d), ..s->0 })
    } else {
        s
    }
}

/// How many of the slots in `t` want datagrams for `dport`.
pub open spec fn listeners(t: Seq<Option<SocketView>>, dport: u16) -> nat
    decreases t.len(),
{
    if t.len() == 0 {
        0
    } else {
        listeners(t.drop_last(), dport) + if wants(t.last(), dport) {
            1nat
        } else {
            0nat
        }
    }
}

/// What delivering a datagram to the sockets does to the stack.
pub open spec fn delivered(
    s: StackView,
    dport: u16,
    src: [u8; 4],
    sport: u16,
    data: Seq<u8>,
) -> StackView {
    let d = DatagramView { src, sport, data };
    let n = listeners(s.sockets, dport);
    let after = StackView {
        sockets: s.sockets.map_values(|x: Option<SocketView>| slot_delivered(x, dport, d)),
        ..s
    };
    if n > 0 {
        after.logged(Event::Delivered { len: data.len() as usize, sockets: n as usize, port: dport })
    } else {
        after
    }
}

/// RX hook: append to every UDP socket bound to `dport`.
pub fn deliver(s: &mut Stack, dport: u16, src: [u8; 4], sport: u16, data: &[u8])
    ensures
        final(s)@ == delivered(old(s)@, dport, src, sport, data@),
{
    let ghost before = s@;
    let ghost d = DatagramView { src, sport, data: data@ };
    let mut count: usize = 0;
    let mut i: usize = 0;
    while i < s.sockets.slots.len()
        invariant
            i <= s.sockets.slots@.len(),
            s@ == (StackView { sockets: s.sockets@, ..before }),
            before == old(s)@,
            d == (DatagramView { src, sport, data: data@ }),
            s.sockets@.len() == before.sockets.len(),
            count <= i,
            count == listeners(before.sockets.take(i as int), dport),
            forall|j: int|
                0 <= j < i ==> s.sockets@[j] == slot_delivered(before.sockets[j], dport, d),
            forall|j: int| i <= j < s.sockets@.len() ==> s.sockets@[j] == before.sockets[j],
        decreases s.sockets.slots@.len() - i,
    {
        let ghost prev = s.sockets@;
        assert(prev[i as int] == before.sockets[i as int]);
        assert(before.sockets.take(i + 1).drop_last() =~= before.sockets.take(i as int));
        if let Some(x) = &mut s.sockets.slots[i] {
            if x.proto == PROTO_UDP && x.local_port != 0 && x.local_port == dport {
                let mut copy: Vec<u8> = Vec::new();
                extend(&mut copy, data);
                assert(copy@ =~= data@);
                let ghost old_x = x@;
                x.rx.push_back(Datagram { src, sport, data: copy });
                assert(x@ =~= (SocketView { rx: old_x.rx.push(d), ..old_x }));
                count = count + 1;
            }
        }
        assert(s.sockets@ =~= prev.update(i as int, slot_delivered(prev[i as int], dport, d)));
        i = i + 1;
    }
    assert(before.sockets.take(i as int) =~= before.sockets);
    assert(s.sockets@ =~= before.sockets.map_values(
        |x: Option<SocketView>| slot_delivered(x, dport, d),
    ));
    if count > 0 {
        s.log(Event::Delivered { len: data.len(), sockets: count, port: dport });
    }
}

/// What writing to a socket returns and does: the data goes to the peer that the
/// socket is connected to.
pub open spec fn written(s: StackView, idx: int, data: Seq<u8>) -> (FsResult<usize>, StackView) {
    match open_socket(s.sockets, idx) {
        Some(x) => match x.peer {
            Some((ip, port)) => sent_to(s, idx, ip, port, data),
            None => (Err(FsError::InvalidArg), s),
        },
        None => (Err(FsError::InvalidArg), s),
    }
}

/// An inode over a socket slot: this is what makes "network a file".
#[derive(Clone, Copy, PartialEq, Eq, Structural, Debug)]
pub struct SocketInode {
    pub idx: usize,
}

impl SocketInode {
    /// The slot, so that `bind` and `connect` can find it.
    pub fn sock_index(&self) -> (r: Option<usize>)
        ensures
            r == Some(self.idx),
    {
        Some(self.idx)
    }

    /// Receive one datagram; nothing queued yet reads as nothing (non-blocking).
    pub fn read(&self, s: &mut Stack, buf: &mut [u8]) -> (r: FsResult<usize>)
        ensures
            final(s)@ == old(s)@.received(self.idx as int),
            match oldest(old(s)@.sockets, self.idx as int) {
                Some(d) => {
                    &&& r == Ok::<usize, FsError>(fitting(d.data, old(buf)@.len()) as usize)
                    &&& final(buf)@ == overlaid(old(buf)@, d.data)
                },
                None => r == Ok::<usize, FsError>(0) && final(buf)@ == old(buf)@,
            },
    {
        match recvfrom(&mut s.sockets, self.idx, buf) {
            Some((n, _, _)) => Ok(n),
            None => Ok(0),
        }
    }

    /// Send one datagram to the peer.
    pub fn write(&self, s: &mut Stack, data: &[u8]) -> (r: FsResult<usize>)
        ensures
            (r, final(s)@) == written(old(s)@, self.idx as int, data@),
    {
        if self.idx >= s.sockets.slots.len() {
            return Err(FsError::InvalidArg);
        }
        let peer = match &s.sockets.slots[self.idx] {
            Some(x) => x.peer,
            None => None,
        };
        match peer {
            Some((ip, port)) => sendto(s, self.idx, ip, port, data),
            None => Err(FsError::InvalidArg),
        }
    }
}

/// Wrap a socket slot as an inode (to be installed into an fd by the syscall).
pub fn inode(idx: usize) -> (r: Inode)
    ensures
        r@ == InodeView::Socket(idx),
{
    Inode::Socket(SocketInode { idx })
}

/// One line of `netstat`: slot, protocol, bound port, peer, queued datagrams.
pub type SocketInfo = (usize, u8, u16, Option<([u8; 4], u16)>, usize);

/// The `netstat` lines for the slots of `t`, in order.
pub open spec fn info_of(t: Seq<Option<SocketView>>) -> Seq<SocketInfo>
    decreases t.len(),
{
    if t.len() == 0 {
        seq![]
    } else {
        let rest = info_of(t.drop_last());
        match t.last() {
            Some(x) => rest.push(
                ((t.len() - 1) as usize, x.proto, x.local_port, x.peer, x.rx.len() as usize),
            ),
            None => rest,
        }
    }
}

/// A snapshot for `netstat`: (idx, proto, bound port, peer, queued datagrams).
pub fn info(t: &SocketTable) -> (r: Vec<SocketInfo>)
    ensures
        r@ == info_of(t@),
{
    let mut r: Vec<SocketInfo> = Vec::new();
    let mut i: usize = 0;
    while i < t.slots.len()
        invariant
            i <= t.slots@.len(),
            r@ == info_of(t@.take(i as int)),
        decreases t.slots@.len() - i,
    {
        assert(t@.take(i + 1).drop_last() =~= t@.take(i as int));
        if let Some(x) = &t.slots[i] {
            assert(t@[i as int] == Some(x@));
            r.push((i, x.proto, x.local_port, x.peer, x.rx.len()));
        }
        i = i + 1;
    }
    assert(t@.take(i as int) =~= t@);
    r
}

/// A datagram for a port reaches exactly the UDP sockets bound to it, behind
/// what already waits there.
pub proof fn law_delivery_is_exact(
    s: StackView,
    dport: u16,
    src: [u8; 4],
    sport: u16,
    data: Seq<u8>,
    i: int,
)
    requires
        0 <= i < s.sockets.len(),
    ensures
        ({
            let d = DatagramView { src, sport, data };
            let after = delivered(s, dport, src, sport, data).sockets;
            &&& after.len() == s.sockets.len()
            &&& wants(s.sockets[i], dport) ==> after[i] is Some && after[i]->0.rx
                == s.sockets[i]->0.rx.push(d)
            &&& !wants(s.sockets[i], dport) ==> after[i] == s.sockets[i]
        }),
{
}

/// Datagrams are received in the order of their delivery: one that arrives at an
/// empty socket is the next to be received, and one that arrives behind others
/// does not change which is next.
pub proof fn law_delivery_is_received(
    s: StackView,
    dport: u16,
    src: [u8; 4],
    sport: u16,
    data: Seq<u8>,
    i: int,
)
    requires
        0 <= i < s.sockets.len(),
        wants(s.sockets[i], dport),
    ensures
        ({
            let after = delivered(s, dport, src, sport, data).sockets;
            oldest(after, i) == if s.sockets[i]->0.rx.len() == 0 {
                Some(DatagramView { src, sport, data })
            } else {
                oldest(s.sockets, i)
            }
        }),
{
}

/// A socket that was never bound receives nothing, whatever the port.
pub proof fn law_unbound_socket_receives_nothing(
    s: StackView,
    dport: u16,
    src: [u8; 4],
    sport: u16,
    data: Seq<u8>,
    i: int,
)
    requires
        0 <= i < s.sockets.len(),
        s.sockets[i] is Some,
        s.sockets[i]->0.local_port == 0,
    ensures
        delivered(s, dport, src, sport, data).sockets[i] == s.sockets[i],
{
}

/// A new socket takes a slot that was free, and leaves every open socket alone.
pub proof fn law_new_socket_disturbs_none(t: Seq<Option<SocketView>>, i: int, proto: u8, j: int)
    requires
        first_free(t, i),
        open_socket(t, j) is Some,
    ensures
        i != j,
        open_socket(with_socket(t, i, fresh(proto)), j) == open_socket(t, j),
{
}

/// The message of the self test: `ping-pong`.
pub open spec fn demo_message() -> Seq<u8> {
    seq![0x70, 0x69, 0x6e, 0x67, 0x2d, 0x70, 0x6f, 0x6e, 0x67]
}

/// What the self test of the sockets saw.
pub struct DemoReport {
    pub socket: usize,
    pub fd: FsResult<usize>,
    /// What reading the descriptor returned, if there was one.
    pub read: Option<FsResult<usize>>,
    pub buf: Vec<u8>,
}

/// The system once the self test has opened and bound a socket in slot `i`.
pub open spec fn demo_bound(s: SystemView, i: int) -> SystemView {
    SystemView {
        net: StackView {
            sockets: bound(with_socket(s.net.sockets, i, fresh(PROTO_UDP)), i, 5555),
            ..s.net
        },
        ..s
    }
}

/// The system once the message of the self test was delivered, too.
pub open spec fn demo_delivered(s: SystemView) -> SystemView {
    let b = demo_bound(s, free_slot(s.net.sockets));
    SystemView { net: delivered(b.net, 5555, GATEWAY, 4242, demo_message()), ..b }
}

/// What opening the socket of the self test gives.
pub open spec fn demo_opened(v: VfsView, s: SystemView) -> (FsResult<usize>, VfsView) {
    v.opened(Ok(InodeView::Socket(free_slot(s.net.sockets) as usize)))
}

/// An empty buffer of the self test.
pub open spec fn demo_room() -> Seq<u8> {
    Seq::new(32, |i: int| 0u8)
}

/// The tables and the system after the self test: the socket was opened, bound and
/// given a descriptor, the message delivered, read through the descriptor, and the
/// descriptor closed. Without a free descriptor the message stays queued.
pub open spec fn demo_ran(v: VfsView, s: SystemView) -> (VfsView, SystemView) {
    let t = demo_delivered(s);
    match demo_opened(v, s) {
        (Ok(fd), w) => {
            let (_, x, u, _) = w.read(t, fd as int, demo_room());
            (x.closed(fd as int).1, u)
        },
        (Err(_), w) => (w, t),
    }
}

/// Whether `r` is what the self test sees: with a descriptor, the whole message.
pub open spec fn demo_saw(r: DemoReport, v: VfsView, s: SystemView) -> bool {
    &&& r.socket == free_slot(s.net.sockets)
    &&& r.fd == demo_opened(v, s).0
    &&& r.fd is Ok ==> {
        &&& r.read == Some(Ok::<usize, FsError>(9usize))
        &&& r.buf@ == overlaid(demo_room(), demo_message())
        &&& r.buf@.take(9) == demo_message()
    }
    &&& r.fd is Err ==> r.read is None && r.buf@ == demo_room()
}

/// Self-test: create and bind a socket, deliver a datagram, and read it back
/// through the VFS (the "network is a file" path end to end).
pub fn demo(v: &mut Vfs, sys: &mut System) -> (r: DemoReport)
    requires
        old(v)@.fds.len() <= crate::fs::MAX_FDS,
    ensures
        demo_saw(r, old(v)@, old(sys)@),
        (final(v)@, final(sys)@) == demo_ran(old(v)@, old(sys)@),
        forall|fd: int| #[trigger] final(v)@.file(fd) == old(v)@.file(fd),
        final(v)@.fds.len() <= crate::fs::MAX_FDS,
{
    let ghost v0 = v@;
    let ghost s0 = sys@;
    let idx: usize = socket(&mut sys.net.sockets, PROTO_UDP);
    bind(&mut sys.net.sockets, idx, 5555);
    assert(sys@ =~= demo_bound(s0, idx as int));
    proof {
        crate::fs::law_open_takes_lowest_free(v@, InodeView::Socket(idx), 0);
    }
    let fd = crate::fs::install_inode(v, inode(idx));
    let msg: [u8; 9] = [0x70, 0x69, 0x6e, 0x67, 0x2d, 0x70, 0x6f, 0x6e, 0x67];
    assert(msg@ =~= demo_message());
    let ghost before = sys@;
    deliver(&mut sys.net, 5555, GATEWAY, 4242, msg.as_slice());
    assert(sys@ =~= demo_delivered(s0));
    let mut buf: Vec<u8> = vec![0u8; 32];
    assert(buf@ =~= demo_room());
    match fd {
        Ok(n) => {
            proof {
                crate::fs::law_network_is_a_file(
                    v@,
                    before,
                    n as int,
                    idx,
                    5555,
                    GATEWAY,
                    4242,
                    msg@,
                    buf@,
                );
                law_delivery_is_received(before.net, 5555, GATEWAY, 4242, msg@, idx as int);
            }
            let got = crate::fs::read(v, sys, n, buf.as_mut_slice());
            let _ = crate::fs::close(v, n);
            proof {
                assert forall|j: int| #[trigger] v@.file(j) == v0.file(j) by {
                    crate::fs::law_open_takes_lowest_free(v0, InodeView::Socket(idx), j);
                }
            }
            DemoReport { socket: idx, fd, read: Some(got), buf }
        },
        Err(_) => DemoReport { socket: idx, fd, read: None, buf },
    }
}

/// A new socket has the protocol that was asked for, no port, no peer, and nothing
/// queued.
pub proof fn law_new_socket_is_blank(t: Seq<Option<SocketView>>, i: int, proto: u8)
    requires
        first_free(t, i),
    ensures
        ({
            let s = open_socket(with_socket(t, i, fresh(proto)), i);
            &&& s is Some
            &&& s->0.proto == proto
            &&& s->0.local_port == 0
            &&& s->0.peer is None
            &&& s->0.rx.len() == 0
        }),
{
}

/// Binding sets the port of one socket, and connecting its peer: nothing else of it
/// changes, and nothing of the other slots.
pub proof fn law_bind_and_connect_set_one_field(
    t: Seq<Option<SocketView>>,
    i: int,
    port: u16,
    ip: [u8; 4],
    j: int,
)
    requires
        open_socket(t, i) is Some,
    ensures
        ({
            let s = open_socket(t, i)->0;
            let b = open_socket(bound(t, i, port), i);
            let c = open_socket(connected(t, i, ip, port), i);
            &&& b is Some && b->0.local_port == port && b->0.proto == s.proto && b->0.peer == s.peer
                && b->0.rx == s.rx
            &&& c is Some && c->0.peer == Some((ip, port)) && c->0.proto == s.proto
                && c->0.local_port == s.local_port && c->0.rx == s.rx
        }),
        j != i ==> open_socket(bound(t, i, port), j) == open_socket(t, j),
        j != i ==> open_socket(connected(t, i, ip, port), j) == open_socket(t, j),
{
}

/// Who receives a datagram: the sockets of protocol 17 whose port is the one that it
/// is for, unless that is zero. Their queues grow by it, at the end; everything else
/// stays.
pub proof fn law_datagram_goes_to_its_port(
    s: StackView,
    dport: u16,
    src: [u8; 4],
    sport: u16,
    data: Seq<u8>,
    i: int,
)
    requires
        0 <= i < s.sockets.len(),
        s.sockets[i] is Some,
    ensures
        ({
            let x = s.sockets[i]->0;
            let after = delivered(s, dport, src, sport, data);
            let y = after.sockets[i];
            &&& after.nic == s.nic && after.cache == s.cache
            &&& y is Some
            &&& y->0.proto == x.proto && y->0.local_port == x.local_port && y->0.peer == x.peer
            &&& if x.proto == 17 && x.local_port == dport && dport != 0 {
                &&& y->0.rx.len() == x.rx.len() + 1
                &&& y->0.rx.drop_last() == x.rx
                &&& y->0.rx.last().src == src
                &&& y->0.rx.last().sport == sport
                &&& y->0.rx.last().data == data
            } else {
                y->0.rx == x.rx
            }
        }),
{
    let x = s.sockets[i]->0;
    let y = delivered(s, dport, src, sport, data).sockets[i];
    if wants(s.sockets[i], dport) {
        assert(y->0.rx.drop_last() =~= x.rx);
    }
}

/// How many sockets a delivery reports: one for each that receives it.
pub proof fn law_listeners_are_counted(
    t: Seq<Option<SocketView>>,
    u: Seq<Option<SocketView>>,
    x: Option<SocketView>,
    dport: u16,
)
    ensures
        listeners(t + u, dport) == listeners(t, dport) + listeners(u, dport),
        listeners(seq![x], dport) == if x is Some && x->0.proto == 17 && x->0.local_port == dport
            && dport != 0 {
            1nat
        } else {
            0nat
        },
    decreases u.len(),
{
    reveal_with_fuel(listeners, 2);
    assert(seq![x].drop_last() =~= seq![]);
    if u.len() == 0 {
        assert(t + u =~= t);
    } else {
        assert((t + u).drop_last() =~= t + u.drop_last());
        law_listeners_are_counted(t, u.drop_last(), x, dport);
    }
}

/// Receiving takes the datagram at the front of the queue and leaves the others in
/// their order; the other slots stay.
pub proof fn law_receive_takes_the_front(
    t: Seq<Option<SocketView>>,
    i: int,
    d: DatagramView,
    rest: Seq<DatagramView>,
    j: int,
)
    requires
        open_socket(t, i) is Some,
        open_socket(t, i)->0.rx == seq![d] + rest,
    ensures
        oldest(t, i) == Some(d),
        open_socket(received(t, i), i) is Some,
        open_socket(received(t, i), i)->0.rx == rest,
        open_socket(received(t, i), i)->0.local_port == open_socket(t, i)->0.local_port,
        open_socket(received(t, i), i)->0.peer == open_socket(t, i)->0.peer,
        open_socket(received(t, i), i)->0.proto == open_socket(t, i)->0.proto,
        j != i ==> open_socket(received(t, i), j) == open_socket(t, j),
{
    assert((seq![d] + rest).skip(1) =~= rest);
}

/// What sending through a socket puts on the wire: a datagram from the socket's port
/// to the address and port that were given, with the whole of the data. Only sockets
/// of protocol 17 send, and only through a card.
pub proof fn law_send_on_the_wire(s: StackView, i: int, dst: [u8; 4], port: u16, data: Seq<u8>)
    requires
        open_socket(s.sockets, i) is Some,
        data.len() + 28 <= 65535,
    ensures
        ({
            let x = open_socket(s.sockets, i)->0;
            let (r, after) = sent_to(s, i, dst, port, data);
            if x.proto != 17 {
                r == Err::<usize, FsError>(FsError::InvalidArg) && after == s
            } else if s.nic is None {
                r == Err::<usize, FsError>(FsError::Io) && after.nic is None
            } else {
                let f = sent_frame(s.nic->0, after.nic->0);
                &&& r == Ok::<usize, FsError>(data.len() as usize)
                &&& after.nic is Some
                &&& after.sockets == s.sockets
                &&& f.subrange(26, 30) == seq![10u8, 0, 2, 15]
                &&& f.subrange(30, 34) == dst@
                &&& f[34] * 256 + f[35] == x.local_port
                &&& f[36] * 256 + f[37] == port
                &&& f.skip(42) == data
            }
        }),
{
    let x = open_socket(s.sockets, i)->0;
    if s.nic is Some {
        udp::law_datagram_on_the_wire(s, x.local_port, dst, port, data);
    }
}

/// What a socket that is written to sends: the same as sending to its peer. One
/// without a peer sends nothing.
pub proof fn law_write_goes_to_the_peer(s: StackView, i: int, data: Seq<u8>)
    requires
        open_socket(s.sockets, i) is Some,
        open_socket(s.sockets, i)->0.proto == 17,
        s.nic is Some,
        data.len() + 28 <= 65535,
    ensures
        ({
            let x = open_socket(s.sockets, i)->0;
            let (r, after) = written(s, i, data);
            match x.peer {
                Some((ip, port)) => {
                    let f = sent_frame(s.nic->0, after.nic->0);
                    &&& r == Ok::<usize, FsError>(data.len() as usize)
                    &&& f.subrange(30, 34) == ip@
                    &&& f[34] * 256 + f[35] == x.local_port
                    &&& f[36] * 256 + f[37] == port
                    &&& f.skip(42) == data
                },
                None => r == Err::<usize, FsError>(FsError::InvalidArg) && after == s,
            }
        }),
{
    match open_socket(s.sockets, i)->0.peer {
        Some((ip, port)) => {
            law_send_on_the_wire(s, i, ip, port, data);
        },
        None => {},
    }
}

/// The listing has a line for every open socket, with its slot, protocol, port, peer
/// and queue length, in the order of the slots, and no other line.
pub proof fn law_listing_is_complete(t: Seq<Option<SocketView>>, i: int)
    requires
        t.len() <= usize::MAX,
    ensures
        open_socket(t, i) is Some && open_socket(t, i)->0.rx.len() <= usize::MAX ==> exists|k: int|
            0 <= k < info_of(t).len() && {
                let x = open_socket(t, i)->0;
                let line = #[trigger] info_of(t)[k];
                line.0 == i && line.1 == x.proto && line.2 == x.local_port && line.3 == x.peer
                    && line.4 == x.rx.len()
            },
        forall|k: int|
            0 <= k < info_of(t).len() ==> open_socket(t, (#[trigger] info_of(t)[k]).0 as int) is Some,
        forall|k: int, l: int|
            0 <= k < l < info_of(t).len() ==> (#[trigger] info_of(t)[k]).0 < (#[trigger] info_of(
                t,
            )[l]).0,
    decreases t.len(),
{
    if t.len() > 0 {
        let u = t.drop_last();
        let rest = info_of(u);
        let all = info_of(t);
        law_listing_is_complete(u, i);
        assert forall|k: int| 0 <= k < all.len() implies open_socket(
            t,
            (#[trigger] all[k]).0 as int,
        ) is Some by {
            if k < rest.len() {
                assert(all[k] == rest[k]);
                assert(open_socket(u, rest[k].0 as int) is Some);
            }
        }
        assert forall|k: int, l: int| 0 <= k < l < all.len() implies (#[trigger] all[k]).0 < (
        #[trigger] all[l]).0 by {
            assert(all[k] == rest[k]);
            assert(open_socket(u, rest[k].0 as int) is Some);
            if l < rest.len() {
                assert(all[l] == rest[l]);
            }
        }
        if open_socket(t, i) is Some && open_socket(t, i)->0.rx.len() <= usize::MAX {
            if i < u.len() {
                assert(open_socket(u, i) == open_socket(t, i));
                let k = choose|k: int|
                    0 <= k < rest.len() && {
                        let x = open_socket(u, i)->0;
                        let line = #[trigger] rest[k];
                        line.0 == i && line.1 == x.proto && line.2 == x.local_port && line.3
                            == x.peer && line.4 == x.rx.len()
                    };
                assert(all[k] == rest[k]);
            } else {
                assert(all[rest.len() as int].0 == i);
            }
        }
    }
}

} // verus!
