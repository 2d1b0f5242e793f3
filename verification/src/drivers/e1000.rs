//! Intel e1000 (82540EM) network card.
//!
//! The driver decides what is written to the descriptor rings, the transmit
//! buffer and the device registers; the writes themselves wait in
//! [`Nic::ops`] until the machine carries them out, in order.
use vstd::prelude::*;
use crate::memory::pmm::{law_pages_are_distinct, pages, BitmapFrameAllocator, MAX_PHYS};
use crate::memory::vmm::{containing_page, page_of, NO_CACHE, NO_EXECUTE, PRESENT, WRITABLE};

pub mod arp;

pub use arp::demo_arp;

verus! {

pub const VENDOR_INTEL: u16 = 0x8086;

pub const DEVICE_E1000: u16 = 0x100e;

pub const REG_CTRL: u32 = 0x0000;

pub const REG_STATUS: u32 = 0x0008;

pub const REG_IMC: u32 = 0x0068;

pub const REG_ICR: u32 = 0x00c0;

pub const REG_RCTL: u32 = 0x0100;

pub const REG_TCTL: u32 = 0x0400;

pub const REG_MTA: u32 = 0x2c00;

pub const REG_RAL0: u32 = 0x5400;

pub const REG_RAH0: u32 = 0x5404;

pub const REG_RDBAL: u32 = 0x2800;

pub const REG_RDBAH: u32 = 0x2804;

pub const REG_RDLEN: u32 = 0x2808;

pub const REG_RDH: u32 = 0x2810;

pub const REG_RDT: u32 = 0x2818;

pub const REG_TDBAL: u32 = 0x3800;

pub const REG_TDBAH: u32 = 0x3804;

pub const REG_TDLEN: u32 = 0x3808;

pub const REG_TDH: u32 = 0x3810;

pub const REG_TDT: u32 = 0x3818;

/// Set link up.
pub const CTRL_SLU: u32 = 0x40;

/// Software reset.
pub const CTRL_RST: u32 = 0x400_0000;

/// Link up.
pub const STATUS_LU: u32 = 0x2;

pub const RCTL_EN: u32 = 0x2;

pub const RCTL_UPE: u32 = 0x4;

pub const TCTL_EN: u32 = 0x1;

/// Receive descriptors in the ring.
pub const NUM_RX: usize = 8;

/// Transmit descriptors in the ring.
pub const NUM_TX: usize = 8;

/// The "descriptor done" status bit.
pub const DESC_DD: u8 = 0x01;

/// IFCS (0x01), RS (0x08) and EOP (0x10).
pub const TX_CMD: u8 = 0x19;

/// Our hard-coded IPv4 identity for user-mode networking.
pub const IP: [u8; 4] = [10, 0, 2, 15];

pub const GATEWAY: [u8; 4] = [10, 0, 2, 2];

/// One legacy (16-byte) transmit/receive descriptor. `cmd` drives transmission,
/// `status` holds the done bit.
#[derive(Clone, Copy, PartialEq, Eq, Structural, Debug)]
pub struct Desc {
    pub addr: u64,
    pub length: u16,
    pub tos: u8,
    pub cmd: u8,
    pub status: u8,
    pub css: u8,
    pub offset: u16,
}

/// The count after `n`; the largest is followed by zero.
pub open spec fn next_count(n: usize) -> usize {
    if n == usize::MAX {
        0
    } else {
        (n + 1) as usize
    }
}

/// A descriptor that hands the buffer at `addr` to the device.
pub open spec fn empty_desc(addr: u64) -> Desc {
    Desc { addr, length: 0, tos: 0, cmd: 0, status: 0, css: 0, offset: 0 }
}

/// One write that the machine owes the device.
#[derive(Debug)]
pub enum NicOp {
    /// Zero the page at this virtual address.
    ZeroPage(u64),
    /// Copy these bytes to the start of the transmit buffer.
    TxBuffer(Vec<u8>),
    /// Store a descriptor in the transmit ring.
    TxDesc(usize, Desc),
    /// Store a descriptor in the receive ring.
    RxDesc(usize, Desc),
    /// Write a device register.
    Register(u32, u32),
}

/// What a [`NicOp`] says.
pub enum NicOpView {
    ZeroPage(u64),
    TxBuffer(Seq<u8>),
    TxDesc(usize, Desc),
    RxDesc(usize, Desc),
    Register(u32, u32),
}

impl View for NicOp {
    type V = NicOpView;

    open spec fn view(&self) -> NicOpView {
        match self {
            NicOp::ZeroPage(a) => NicOpView::ZeroPage(*a),
            NicOp::TxBuffer(b) => NicOpView::TxBuffer(b@),
            NicOp::TxDesc(i, d) => NicOpView::TxDesc(*i, *d),
            NicOp::RxDesc(i, d) => NicOpView::RxDesc(*i, *d),
            NicOp::Register(r, v) => NicOpView::Register(*r, *v),
        }
    }
}

/// The contents of a list of pending writes.
pub open spec fn ops_view(ops: Seq<NicOp>) -> Seq<NicOpView> {
    ops.map_values(|o: NicOp| o@)
}

/// Everything the driver needs once the device is up.
pub struct Nic {
    /// Virtual address of the device registers.
    pub base: u64,
    pub mac: [u8; 6],
    /// The receive ring as the device last left it.
    pub rx_ring: Vec<Desc>,
    /// What each receive buffer holds.
    pub rx_data: Vec<Vec<u8>>,
    /// Receive buffers: kernel virtual and physical address.
    pub rx_bufs: Vec<(u64, u64)>,
    pub rx_cursor: usize,
    /// Transmit buffer: kernel virtual address.
    pub tx_buf: u64,
    pub tx_buf_phys: u64,
    pub tx_cursor: usize,
    /// Receive ring: physical and kernel virtual address.
    pub rx_ring_phys: u64,
    pub rx_ring_virt: u64,
    /// Transmit ring: physical and kernel virtual address.
    pub tx_ring_phys: u64,
    pub tx_ring_virt: u64,
    /// Writes that have not reached the device yet.
    pub ops: Vec<NicOp>,
}

/// The state of a [`Nic`].
#[verifier::ext_equal]
pub struct NicView {
    pub base: u64,
    pub mac: [u8; 6],
    pub rx_ring: Seq<Desc>,
    pub rx_data: Seq<Seq<u8>>,
    pub rx_bufs: Seq<(u64, u64)>,
    pub rx_cursor: usize,
    pub tx_buf: u64,
    pub tx_buf_phys: u64,
    pub tx_cursor: usize,
    /// Receive ring: physical and kernel virtual address.
    pub rx_ring_phys: u64,
    pub rx_ring_virt: u64,
    /// Transmit ring: physical and kernel virtual address.
    pub tx_ring_phys: u64,
    pub tx_ring_virt: u64,
    pub ops: Seq<NicOpView>,
}

impl View for Nic {
    type V = NicView;

    open spec fn view(&self) -> NicView {
        NicView {
            base: self.base,
            mac: self.mac,
            rx_ring: self.rx_ring@,
            rx_data: self.rx_data@.map_values(|b: Vec<u8>| b@),
            rx_bufs: self.rx_bufs@,
            rx_cursor: self.rx_cursor,
            tx_buf: self.tx_buf,
            tx_buf_phys: self.tx_buf_phys,
            tx_cursor: self.tx_cursor,
            rx_ring_phys: self.rx_ring_phys,
            rx_ring_virt: self.rx_ring_virt,
            tx_ring_phys: self.tx_ring_phys,
            tx_ring_virt: self.tx_ring_virt,
            ops: ops_view(self.ops@),
        }
    }
}

impl NicView {
    /// Every ring slot exists, and no descriptor claims more bytes than its
    /// buffer holds.
    pub open spec fn wf(self) -> bool {
        &&& self.rx_ring.len() == NUM_RX
        &&& self.rx_data.len() == NUM_RX
        &&& self.rx_bufs.len() == NUM_RX
        &&& forall|i: int|
            0 <= i < NUM_RX ==> (#[trigger] self.rx_ring[i]).length <= self.rx_data[i].len()
    }

    /// The ring slot that is polled next.
    pub open spec fn rx_index(self) -> int {
        (self.rx_cursor % NUM_RX) as int
    }

    /// Whether slot `i` holds a complete frame.
    pub open spec fn ready(self, i: int) -> bool {
        self.rx_ring[i].status & DESC_DD != 0 && self.rx_ring[i].length != 0
    }

    /// The slot that is polled `k` frames after the next.
    pub open spec fn slot(self, k: int) -> int {
        (self.rx_index() + k) % 8
    }

    /// Whether the slot that is polled next and the `k` behind it all hold frames.
    pub open spec fn in_row(self, k: int) -> bool {
        forall|j: int| 0 <= j <= k ==> self.ready(#[trigger] self.slot(j))
    }

    /// The frame in slot `i`.
    pub open spec fn frame(self, i: int) -> Seq<u8> {
        self.rx_data[i].take(self.rx_ring[i].length as int)
    }

    /// The state once `frame` was queued for transmission: the buffer and its
    /// descriptor are written before the doorbell.
    pub open spec fn sent(self, frame: Seq<u8>) -> NicView {
        let tail = next_count(self.tx_cursor);
        NicView {
            tx_cursor: tail,
            ops: self.ops + seq![
                NicOpView::TxBuffer(frame),
                NicOpView::TxDesc(
                    (self.tx_cursor % NUM_TX) as usize,
                    Desc {
                        addr: self.tx_buf_phys,
                        length: (frame.len() % 0x1_0000) as u16,
                        cmd: TX_CMD,
                        ..empty_desc(0)
                    },
                ),
                NicOpView::Register(REG_TDT, (tail % NUM_TX) as u32),
            ],
            ..self
        }
    }

    /// The state once the frame in the next slot was taken: the buffer is handed
    /// back to the device and the next slot is polled from then on.
    pub open spec fn taken(self) -> NicView {
        let i = self.rx_index();
        let fresh = empty_desc(self.rx_bufs[i].1);
        NicView {
            rx_ring: self.rx_ring.update(i, fresh),
            rx_cursor: next_count(self.rx_cursor),
            ops: self.ops + seq![
                NicOpView::RxDesc(i as usize, fresh),
                NicOpView::Register(REG_RDT, i as u32),
            ],
            ..self
        }
    }
}

impl Nic {
    fn queue(&mut self, op: NicOp)
        ensures
            final(self)@ == (NicView { ops: old(self)@.ops.push(op@), ..old(self)@ }),
    {
        self.ops.push(op);
        assert(self@ =~= (NicView { ops: old(self)@.ops.push(op@), ..old(self)@ }));
    }

    /// Queue the writes that lay out the rings: the rings and the transmit buffer
    /// are zeroed, then every receive descriptor is stored.
    fn queue_layout(&mut self)
        requires
            old(self)@.rx_ring.len() == NUM_RX,
        ensures
            final(self)@ == (NicView {
                ops: old(self)@.ops + seq![
                    NicOpView::ZeroPage(old(self)@.rx_ring_virt),
                    NicOpView::ZeroPage(old(self)@.tx_ring_virt),
                    NicOpView::ZeroPage(old(self)@.tx_buf),
                ] + Seq::new(8, |i: int| NicOpView::RxDesc(i as usize, old(self)@.rx_ring[i])),
                ..old(self)@
            }),
    {
        self.queue(NicOp::ZeroPage(self.rx_ring_virt));
        self.queue(NicOp::ZeroPage(self.tx_ring_virt));
        self.queue(NicOp::ZeroPage(self.tx_buf));
        let ghost zeroed = self@.ops;
        let ghost descs = Seq::new(8, |i: int| NicOpView::RxDesc(i as usize, old(self)@.rx_ring[i]));
        assert(zeroed =~= zeroed + descs.take(0));
        let mut k: usize = 0;
        while k < NUM_RX
            invariant
                k <= NUM_RX,
                old(self)@.rx_ring.len() == NUM_RX,
                descs == Seq::new(
                    8,
                    |i: int| NicOpView::RxDesc(i as usize, old(self)@.rx_ring[i]),
                ),
                self@ == (NicView { ops: zeroed + descs.take(k as int), ..old(self)@ }),
            decreases NUM_RX - k,
        {
            let d = self.rx_ring[k];
            self.queue(NicOp::RxDesc(k, d));
            k = k + 1;
            assert(self@.ops =~= zeroed + descs.take(k as int));
        }
        assert(descs.take(8) =~= descs);
        assert(zeroed =~= old(self)@.ops + seq![
            NicOpView::ZeroPage(old(self)@.rx_ring_virt),
            NicOpView::ZeroPage(old(self)@.tx_ring_virt),
            NicOpView::ZeroPage(old(self)@.tx_buf),
        ]);
    }

    /// The frame in receive slot `i`, if it is complete.
    pub(crate) fn peek(&self, i: usize) -> (r: Option<&[u8]>)
        requires
            self@.wf(),
            i < NUM_RX,
        ensures
            r is Some <==> self@.ready(i as int),
            r is Some ==> r->0@ == self@.frame(i as int),
    {
        let d = self.rx_ring[i];
        if d.status & DESC_DD == 0 || d.length == 0 {
            return None;
        }
        assert(self@.rx_data[i as int] == self.rx_data@[i as int]@);
        let frame = vstd::slice::slice_subrange(self.rx_data[i].as_slice(), 0, d.length as usize);
        assert(frame@ =~= self@.frame(i as int));
        Some(frame)
    }

    /// Record what the device left in receive slot `i`: its descriptor, and the
    /// bytes of its buffer.
    pub fn load_rx(&mut self, i: usize, desc: Desc, data: Vec<u8>)
        requires
            old(self)@.wf(),
            i < NUM_RX,
            desc.length <= data@.len(),
        ensures
            final(self)@ == (NicView {
                rx_ring: old(self)@.rx_ring.update(i as int, desc),
                rx_data: old(self)@.rx_data.update(i as int, data@),
                ..old(self)@
            }),
            final(self)@.wf(),
    {
        self.rx_ring[i] = desc;
        self.rx_data[i] = data;
        assert(self@ =~= (NicView {
            rx_ring: old(self)@.rx_ring.update(i as int, desc),
            rx_data: old(self)@.rx_data.update(i as int, data@),
            ..old(self)@
        }));
    }

    /// Hand out the pending writes, in order.
    pub fn take_ops(&mut self) -> (r: Vec<NicOp>)
        ensures
            ops_view(r@) == old(self)@.ops,
            final(self)@ == (NicView { ops: seq![], ..old(self)@ }),
    {
        let mut r: Vec<NicOp> = Vec::new();
        std::mem::swap(&mut r, &mut self.ops);
        assert(self@ =~= (NicView { ops: seq![], ..old(self)@ }));
        r
    }
}

/// Taking a frame moves on to the next slot and empties the one it was in.
pub(crate) proof fn lemma_taken_moves_on(n: NicView)
    requires
        n.wf(),
    ensures
        n.taken().wf(),
        !n.taken().ready(n.rx_index()),
        forall|k: int| #[trigger] n.taken().slot(k) == n.slot(k + 1),
        n.taken().slot(7) == n.rx_index(),
        forall|i: int|
            0 <= i < NUM_RX && i != n.rx_index() ==> #[trigger] n.taken().ready(i) == n.ready(i),
        forall|i: int|
            0 <= i < NUM_RX && i != n.rx_index() ==> #[trigger] n.taken().frame(i) == n.frame(i),
{
    let t = n.taken();
    assert(usize::MAX % 8 == 7);
    assert(t.rx_index() == (n.rx_index() + 1) % 8);
}

/// What an absent or present card is.
pub open spec fn card(nic: Option<Nic>) -> Option<NicView> {
    match nic {
        Some(n) => Some(n@),
        None => None,
    }
}

/// What sending `frame` does to the card, if there is one.
pub open spec fn card_sent(nic: Option<NicView>, frame: Seq<u8>) -> Option<NicView> {
    match nic {
        Some(n) => Some(n.sent(frame)),
        None => None,
    }
}

/// Send one Ethernet frame. Returns false if no card is present.
pub fn send(nic: &mut Option<Nic>, frame: &[u8]) -> (r: bool)
    ensures
        r == (*old(nic) is Some),
        card(*final(nic)) == card_sent(card(*old(nic)), frame@),
{
    match nic {
        Some(n) => {
            let ghost before = n@;
            let mut copy: Vec<u8> = Vec::new();
            crate::bytes::extend(&mut copy, frame);
            assert(copy@ =~= frame@);
            n.queue(NicOp::TxBuffer(copy));
            let idx: usize = n.tx_cursor % NUM_TX;
            n.queue(
                NicOp::TxDesc(
                    idx,
                    Desc {
                        addr: n.tx_buf_phys,
                        length: crate::bytes::low16(frame.len(), 0),
                        tos: 0,
                        cmd: TX_CMD,
                        status: 0,
                        css: 0,
                        offset: 0,
                    },
                ),
            );
            n.tx_cursor = n.tx_cursor.wrapping_add(1);
            let tail: u32 = (n.tx_cursor % NUM_TX) as u32;
            n.queue(NicOp::Register(REG_TDT, tail));
            assert(n@ =~= before.sent(frame@));
            true
        },
        None => false,
    }
}

/// Poll the receive ring once; return the next complete frame if available.
pub fn poll_receive(nic: &mut Option<Nic>) -> (r: Option<Vec<u8>>)
    requires
        *old(nic) is Some ==> old(nic)->0@.wf(),
    ensures
        r is Some <==> *old(nic) is Some && old(nic)->0@.ready(old(nic)->0@.rx_index()),
        r is Some ==> {
            &&& r->0@ == old(nic)->0@.frame(old(nic)->0@.rx_index())
            &&& card(*final(nic)) == Some(old(nic)->0@.taken())
            &&& final(nic)->0@.wf()
        },
        r is None ==> *final(nic) == *old(nic),
{
    match nic {
        Some(n) => {
            let ghost before = n@;
            let idx: usize = n.rx_cursor % NUM_RX;
            let d = n.rx_ring[idx];
            if d.status & DESC_DD == 0 || d.length == 0 {
                return None;
            }
            let mut out: Vec<u8> = Vec::new();
            assert(before.rx_data[idx as int] == n.rx_data@[idx as int]@);
            crate::bytes::extend(
                &mut out,
                vstd::slice::slice_subrange(n.rx_data[idx].as_slice(), 0, d.length as usize),
            );
            assert(out@ =~= before.frame(idx as int));
            let fresh = Desc {
                addr: n.rx_bufs[idx].1,
                length: 0,
                tos: 0,
                cmd: 0,
                status: 0,
                css: 0,
                offset: 0,
            };
            n.rx_ring[idx] = fresh;
            n.queue(NicOp::RxDesc(idx, fresh));
            n.queue(NicOp::Register(REG_RDT, idx as u32));
            n.rx_cursor = n.rx_cursor.wrapping_add(1);
            assert(n@ =~= before.taken());
            Some(out)
        },
        None => None,
    }
}

/// Diagnostics: the status byte of each receive descriptor.
pub fn rx_debug(nic: &Option<Nic>) -> (r: Option<Vec<u8>>)
    ensures
        match *nic {
            Some(n) => r is Some && r->0@ == n@.rx_ring.map_values(|d: Desc| d.status),
            None => r is None,
        },
{
    match nic {
        Some(n) => {
            let mut dd: Vec<u8> = Vec::new();
            let mut i: usize = 0;
            while i < n.rx_ring.len()
                invariant
                    i <= n.rx_ring@.len(),
                    dd@.len() == i,
                    forall|j: int| 0 <= j < i ==> dd@[j] == n.rx_ring@[j].status,
                decreases n.rx_ring@.len() - i,
            {
                dd.push(n.rx_ring[i].status);
                i = i + 1;
            }
            assert(dd@ =~= n@.rx_ring.map_values(|d: Desc| d.status));
            Some(dd)
        },
        None => None,
    }
}

/// The card's MAC address, if a device was found and initialized.
pub fn mac_address(nic: &Option<Nic>) -> (r: Option<[u8; 6]>)
    ensures
        r == match *nic {
            Some(n) => Some(n.mac),
            None => None,
        },
{
    match nic {
        Some(n) => Some(n.mac),
        None => None,
    }
}

/// The configuration-space address of a register, as written to the PCI address
/// port.
pub open spec fn config_address(bus: u8, dev: u8, func: u8, offset: u8) -> u32 {
    0x8000_0000u32 | ((bus as u32) << 16) | ((dev as u32) << 11) | ((func as u32) << 8) | ((
    offset as u32) & 0xfc)
}

/// The configuration-space address of a register, as written to the PCI address
/// port.
pub fn pci_address(bus: u8, dev: u8, func: u8, offset: u8) -> (r: u32)
    ensures
        r == config_address(bus, dev, func, offset),
        dev < 32 && func < 8 ==> r == 0x8000_0000 + bus * 0x1_0000 + dev * 0x800 + func * 0x100
            + offset / 4 * 4,
{
    let a: u32 = 0x8000_0000u32 | ((bus as u32) << 16) | ((dev as u32) << 11) | ((func as u32) << 8)
        | ((offset as u32) & 0xfc);
    proof {
        let b = bus as u32;
        let d = dev as u32;
        let f = func as u32;
        let o = offset as u32;
        if d < 32 && f < 8 {
            assert(0x8000_0000u32 | (b << 16) | (d << 11) | (f << 8) | (o & 0xfc) == 0x8000_0000
                + b * 0x1_0000 + d * 0x800 + f * 0x100 + o / 4 * 4) by (bit_vector)
                requires
                    b < 256,
                    d < 32,
                    f < 8,
                    o < 256,
            ;
        }
    }
    a
}

/// Where the search for the card on PCI bus 0 stands.
#[derive(Clone, Copy, PartialEq, Eq, Structural, Debug)]
pub enum PciScan {
    /// About to read the vendor of a device.
    Vendor(u8),
    /// About to read the model of a device of a known vendor.
    Device(u8, u16),
    /// About to read where the card's registers are.
    Bar(u8),
    /// About to read the card's command register.
    Command(u8, u64),
    /// About to enable memory space and bus mastering.
    Enable(u8, u64, u32),
    Found(u8, u64),
    Absent,
}

/// A configuration-space access, or the end of the search.
#[derive(Clone, Copy, PartialEq, Eq, Debug)]
pub enum PciAction {
    Read { dev: u8, offset: u8 },
    Write { dev: u8, offset: u8, value: u32 },
    /// Device, function and physical base of the card's registers, if there is one.
    Done(Option<(u8, u8, u64)>),
}

impl PciScan {
    /// The search goes on behind device `dev`.
    pub open spec fn behind(dev: u8) -> PciScan {
        if dev < 31 {
            PciScan::Vendor((dev + 1) as u8)
        } else {
            PciScan::Absent
        }
    }

    /// The next access.
    pub open spec fn wanted(self) -> PciAction {
        match self {
            PciScan::Vendor(dev) => PciAction::Read { dev, offset: 0x00 },
            PciScan::Device(dev, _) => PciAction::Read { dev, offset: 0x00 },
            PciScan::Bar(dev) => PciAction::Read { dev, offset: 0x10 },
            PciScan::Command(dev, _) => PciAction::Read { dev, offset: 0x04 },
            PciScan::Enable(dev, _, cmd) => PciAction::Write {
                dev,
                offset: 0x04,
                value: cmd | 0x06,
            },
            PciScan::Found(dev, base) => PciAction::Done(Some((dev, 0, base))),
            PciScan::Absent => PciAction::Done(None),
        }
    }

    /// Where the search stands once the access gave `v`.
    pub open spec fn stepped(self, v: u32) -> PciScan {
        match self {
            PciScan::Vendor(dev) => if v % 0x1_0000 == 0xffff {
                PciScan::behind(dev)
            } else {
                PciScan::Device(dev, (v % 0x1_0000) as u16)
            },
            PciScan::Device(dev, vid) => if vid == VENDOR_INTEL && v / 0x1_0000 == DEVICE_E1000 {
                PciScan::Bar(dev)
            } else {
                PciScan::behind(dev)
            },
            PciScan::Bar(dev) => PciScan::Command(dev, (v - v % 16) as u64),
            PciScan::Command(dev, base) => PciScan::Enable(dev, base, v),
            PciScan::Enable(dev, base, _) => PciScan::Found(dev, base),
            PciScan::Found(..) | PciScan::Absent => self,
        }
    }

    /// Start the search.
    pub fn new() -> (r: PciScan)
        ensures
            r == PciScan::Vendor(0),
    {
        PciScan::Vendor(0)
    }

    /// The next access.
    pub fn action(&self) -> (r: PciAction)
        ensures
            r == self.wanted(),
    {
        match *self {
            PciScan::Vendor(dev) => PciAction::Read { dev, offset: 0x00 },
            PciScan::Device(dev, _) => PciAction::Read { dev, offset: 0x00 },
            PciScan::Bar(dev) => PciAction::Read { dev, offset: 0x10 },
            PciScan::Command(dev, _) => PciAction::Read { dev, offset: 0x04 },
            PciScan::Enable(dev, _, cmd) => PciAction::Write {
                dev,
                offset: 0x04,
                value: cmd | 0x06,
            },
            PciScan::Found(dev, base) => PciAction::Done(Some((dev, 0, base))),
            PciScan::Absent => PciAction::Done(None),
        }
    }

    fn skip(dev: u8) -> (r: PciScan)
        ensures
            r == PciScan::behind(dev),
    {
        if dev < 31 {
            PciScan::Vendor(dev + 1)
        } else {
            PciScan::Absent
        }
    }

    /// Go on with the value that the access gave (any value after a write).
    pub fn step(&self, v: u32) -> (r: PciScan)
        ensures
            r == self.stepped(v),
    {
        match *self {
            PciScan::Vendor(dev) => {
                let vid: u16 = (v % 0x1_0000) as u16;
                if vid == 0xffff {
                    PciScan::skip(dev)
                } else {
                    PciScan::Device(dev, vid)
                }
            },
            PciScan::Device(dev, vid) => {
                let did: u16 = (v / 0x1_0000) as u16;
                if vid == VENDOR_INTEL && did == DEVICE_E1000 {
                    PciScan::Bar(dev)
                } else {
                    PciScan::skip(dev)
                }
            },
            PciScan::Bar(dev) => PciScan::Command(dev, (v - v % 16) as u64),
            PciScan::Command(dev, base) => PciScan::Enable(dev, base, v),
            PciScan::Enable(dev, base, _) => PciScan::Found(dev, base),
            PciScan::Found(dev, base) => PciScan::Found(dev, base),
            PciScan::Absent => PciScan::Absent,
        }
    }
}

/// What a configuration space that does not change answers: the word at an
/// offset of a device.
pub type ConfigSpace = spec_fn(u8, u8) -> u32;

/// Where the search stands after `n` accesses to `space`.
pub open spec fn scanned(s: PciScan, space: ConfigSpace, n: nat) -> PciScan
    decreases n,
{
    if n == 0 {
        s
    } else {
        let answer = match s.wanted() {
            PciAction::Read { dev, offset } => space(dev, offset),
            _ => 0,
        };
        scanned(s.stepped(answer), space, (n - 1) as nat)
    }
}

/// Whether device `dev` is the card.
pub open spec fn is_card(space: ConfigSpace, dev: int) -> bool {
    space(dev as u8, 0) == 0x100e_8086
}

/// The search finds the first card among the 32 devices of the bus, with the
/// base of its registers, and finds none only if there is none.
pub proof fn law_scan_finds_first_card(space: ConfigSpace) -> (n: nat)
    ensures
        match scanned(PciScan::Vendor(0), space, n) {
            PciScan::Found(dev, base) => {
                &&& dev < 32
                &&& is_card(space, dev as int)
                &&& forall|d: int| 0 <= d < dev ==> !#[trigger] is_card(space, d)
                &&& base == space(dev, 0x10) - space(dev, 0x10) % 16
            },
            PciScan::Absent => forall|d: int| 0 <= d < 32 ==> !#[trigger] is_card(space, d),
            _ => false,
        },
{
    lemma_scan_from(space, 0)
}

proof fn lemma_scan_from(space: ConfigSpace, dev: u8) -> (n: nat)
    requires
        dev < 32,
    ensures
        match scanned(PciScan::Vendor(dev), space, n) {
            PciScan::Found(found, base) => {
                &&& dev <= found < 32
                &&& is_card(space, found as int)
                &&& forall|d: int| dev <= d < found ==> !#[trigger] is_card(space, d)
                &&& base == space(found, 0x10) - space(found, 0x10) % 16
            },
            PciScan::Absent => forall|d: int| dev <= d < 32 ==> !#[trigger] is_card(space, d),
            _ => false,
        },
    decreases 32 - dev,
{
    let v = space(dev, 0);
    reveal_with_fuel(scanned, 6);
    let s = PciScan::Vendor(dev);
    if is_card(space, dev as int) {
        assert(scanned(s, space, 5) == PciScan::Found(dev, (space(dev, 0x10) - space(dev, 0x10) % 16) as u64));
        5
    } else {
        let next = PciScan::behind(dev);
        let spent: nat = if v % 0x1_0000 == 0xffff {
            1
        } else {
            2
        };
        assert(scanned(s, space, spent) == next);
        if dev == 31 {
            spent
        } else {
            let n = lemma_scan_from(space, (dev + 1) as u8);
            assert(scanned(s, space, spent + n) == scanned(next, space, n));
            spent + n
        }
    }
}

/// Flags for device memory: writable, uncached, not executable.
pub fn mmio_flags() -> (r: u64)
    ensures
        r == PRESENT + WRITABLE + NO_CACHE + NO_EXECUTE,
        r == 0x8000_0000_0000_0013,
{
    PRESENT + WRITABLE + NO_CACHE + NO_EXECUTE
}

/// The pages of the register window from `virt` on, with the frames from `phys`
/// on, that are still missing from the physical map.
pub open spec fn missing_pages(virt: u64, phys: u64, mapped: Seq<bool>) -> Seq<(u64, u64)>
    decreases mapped.len(),
{
    if mapped.len() == 0 {
        seq![]
    } else {
        let rest = missing_pages(virt, phys, mapped.drop_last());
        let i = mapped.len() - 1;
        if mapped.last() {
            rest
        } else {
            rest.push((page_of((virt + i * 4096) as u64), page_of((phys + i * 4096) as u64)))
        }
    }
}

/// Decide which pages of the register window have to be mapped: those that are
/// not reachable through the physical map yet.
pub fn map_mmio(virt: u64, phys: u64, mapped: &[bool]) -> (r: Vec<(u64, u64)>)
    requires
        virt + mapped@.len() * 4096 <= u64::MAX,
        phys + mapped@.len() * 4096 <= u64::MAX,
    ensures
        r@ == missing_pages(virt, phys, mapped@),
{
    let mut r: Vec<(u64, u64)> = Vec::new();
    let mut i: usize = 0;
    while i < mapped.len()
        invariant
            i <= mapped@.len(),
            virt + mapped@.len() * 4096 <= u64::MAX,
            phys + mapped@.len() * 4096 <= u64::MAX,
            r@ == missing_pages(virt, phys, mapped@.take(i as int)),
        decreases mapped@.len() - i,
    {
        assert(mapped@.take(i + 1).drop_last() =~= mapped@.take(i as int));
        if !mapped[i] {
            let skip: u64 = i as u64 * 4096;
            r.push((containing_page(virt + skip), containing_page(phys + skip)));
        }
        i = i + 1;
    }
    assert(mapped@.take(i as int) =~= mapped@);
    r
}

/// Frames that the rings and buffers take.
pub const NIC_FRAMES: usize = 11;

/// The card that `build_nic` describes: rings, receive buffers and transmit
/// buffer in the frames `p`, all descriptors of the receive ring handed to the
/// device.
pub open spec fn built(base: u64, offset: u64, p: Seq<u64>) -> NicView {
    NicView {
        base,
        mac: [0, 0, 0, 0, 0, 0],
        rx_ring: Seq::new(8, |i: int| empty_desc(p[i + 2])),
        rx_data: Seq::new(8, |i: int| seq![]),
        rx_bufs: Seq::new(8, |i: int| ((offset + p[i + 2]) as u64, p[i + 2])),
        rx_cursor: 0,
        tx_buf: (offset + p[10]) as u64,
        tx_buf_phys: p[10],
        tx_cursor: 0,
        rx_ring_phys: p[0],
        rx_ring_virt: (offset + p[0]) as u64,
        tx_ring_phys: p[1],
        tx_ring_virt: (offset + p[1]) as u64,
        ops: seq![
            NicOpView::ZeroPage((offset + p[0]) as u64),
            NicOpView::ZeroPage((offset + p[1]) as u64),
            NicOpView::ZeroPage((offset + p[10]) as u64),
        ] + Seq::new(8, |i: int| NicOpView::RxDesc(i as usize, empty_desc(p[i + 2]))),
    }
}

/// Allocate rings + buffers and describe the descriptor layout for the device,
/// whose registers are mapped at `base`. Physical memory is mapped at `offset`.
pub fn build_nic(frames: &mut BitmapFrameAllocator, offset: u64, base: u64) -> (r: Nic)
    requires
        old(frames).wf(),
        old(frames)@.free_count() >= NIC_FRAMES,
        offset + MAX_PHYS <= u64::MAX,
    ensures
        final(frames).wf(),
        final(frames)@ == pages(old(frames)@, NIC_FRAMES as nat).1,
        r@ == built(base, offset, pages(old(frames)@, NIC_FRAMES as nat).0),
        r@.wf(),
{
    proof {
        law_pages_are_distinct(frames@, NIC_FRAMES as nat);
    }
    let p = frames.allocate_frames(NIC_FRAMES);
    assert(forall|i: int| 0 <= i < NIC_FRAMES ==> #[trigger] p@[i] < MAX_PHYS);
    let mut rx_bufs: Vec<(u64, u64)> = Vec::new();
    let mut rx_ring: Vec<Desc> = Vec::new();
    let mut rx_data: Vec<Vec<u8>> = Vec::new();
    let mut i: usize = 0;
    while i < NUM_RX
        invariant
            i <= NUM_RX,
            p@.len() == NIC_FRAMES,
            offset + MAX_PHYS <= u64::MAX,
            forall|i: int| 0 <= i < NIC_FRAMES ==> #[trigger] p@[i] < MAX_PHYS,
            rx_bufs@.len() == i,
            rx_ring@.len() == i,
            rx_data@.len() == i,
            forall|j: int| 0 <= j < i ==> rx_bufs@[j] == ((offset + p@[j + 2]) as u64, p@[j + 2]),
            forall|j: int| 0 <= j < i ==> rx_ring@[j] == empty_desc(p@[j + 2]),
            forall|j: int| 0 <= j < i ==> (#[trigger] rx_data@[j])@ == Seq::<u8>::empty(),
        decreases NUM_RX - i,
    {
        let phys: u64 = p[i + 2];
        rx_bufs.push((offset + phys, phys));
        rx_ring.push(Desc { addr: phys, length: 0, tos: 0, cmd: 0, status: 0, css: 0, offset: 0 });
        rx_data.push(Vec::new());
        i = i + 1;
    }
    let mut nic = Nic {
        base,
        mac: [0, 0, 0, 0, 0, 0],
        rx_ring,
        rx_data,
        rx_bufs,
        rx_cursor: 0,
        tx_buf: offset + p[10],
        tx_buf_phys: p[10],
        tx_cursor: 0,
        rx_ring_phys: p[0],
        rx_ring_virt: offset + p[0],
        tx_ring_phys: p[1],
        tx_ring_virt: offset + p[1],
        ops: Vec::new(),
    };
    let ghost goal = built(base, offset, p@);
    assert(nic@ =~= (NicView { ops: seq![], ..goal }));
    nic.queue_layout();
    assert(nic@.ops =~= goal.ops);
    nic
}

/// Where the bring-up of the card stands.
#[derive(Clone, Copy, PartialEq, Eq, Structural, Debug)]
pub enum Stage {
    /// Turn all interrupts off.
    MaskInterrupts,
    /// Clear pending interrupts.
    ClearPending,
    ReadControl,
    /// Reset, keeping the other control bits.
    Reset(u32),
    /// Wait for the reset to finish; so many polls were made.
    AwaitReset(u32),
    ReadLink,
    /// Re-assert "set link up", which the reset cleared.
    SetLink(u32),
    ReadLow,
    ReadHigh(u32),
    /// Clear an entry of the multicast filter table.
    Multicast(u32),
    /// Program the rings, step by step.
    Program(u32),
    ReadStatus,
    /// The card is up; so is the link, or not.
    Up(bool),
}

/// A register access, or the end of the bring-up.
#[derive(Clone, Copy, PartialEq, Eq, Structural, Debug)]
pub enum RegAction {
    Write(u32, u32),
    Read(u32),
    /// The card is up; so is the link, or not.
    Done(bool),
}

/// How often the end of a reset is polled for.
pub const RESET_POLLS: u32 = 100_000;

/// Entries of the multicast filter table.
pub const MTA_ENTRIES: u32 = 128;

/// Register writes that program the rings.
pub const PROGRAM_STEPS: u32 = 12;

/// Write `k` of those that program the rings: the receive ring first, all of its
/// buffers given to the device, then the transmit ring, enabled before the first
/// tail write.
pub open spec fn program(rx_ring_phys: u64, tx_ring_phys: u64, k: u32) -> (u32, u32) {
    if k == 0 {
        (REG_RDBAL, (rx_ring_phys % 0x1_0000_0000) as u32)
    } else if k == 1 {
        (REG_RDBAH, 0)
    } else if k == 2 {
        (REG_RDLEN, 128)
    } else if k == 3 {
        (REG_RDH, 0)
    } else if k == 4 {
        (REG_RDT, 7)
    } else if k == 5 {
        (REG_RCTL, (RCTL_EN + RCTL_UPE) as u32)
    } else if k == 6 {
        (REG_TDBAL, (tx_ring_phys % 0x1_0000_0000) as u32)
    } else if k == 7 {
        (REG_TDBAH, 0)
    } else if k == 8 {
        (REG_TDLEN, 128)
    } else if k == 9 {
        (REG_TCTL, TCTL_EN)
    } else if k == 10 {
        (REG_TDH, 0)
    } else {
        (REG_TDT, 0)
    }
}

/// The MAC address that the two address registers hold, lowest byte first.
pub open spec fn mac_from(ral: u32, rah: u32) -> [u8; 6] {
    [
        (ral % 256) as u8,
        (ral / 256 % 256) as u8,
        (ral / 0x1_0000 % 256) as u8,
        (ral / 0x100_0000) as u8,
        (rah % 256) as u8,
        (rah / 256 % 256) as u8,
    ]
}

impl Stage {
    /// The next register access of a card with these rings.
    pub open spec fn wanted(self, rx_ring_phys: u64, tx_ring_phys: u64) -> RegAction {
        match self {
            Stage::MaskInterrupts => RegAction::Write(REG_IMC, 0x7fff_ffff),
            Stage::ClearPending => RegAction::Read(REG_ICR),
            Stage::ReadControl => RegAction::Read(REG_CTRL),
            Stage::Reset(ctrl) => RegAction::Write(REG_CTRL, ctrl | CTRL_RST),
            Stage::AwaitReset(_) => RegAction::Read(REG_CTRL),
            Stage::ReadLink => RegAction::Read(REG_CTRL),
            Stage::SetLink(ctrl) => RegAction::Write(REG_CTRL, ctrl | CTRL_SLU),
            Stage::ReadLow => RegAction::Read(REG_RAL0),
            Stage::ReadHigh(_) => RegAction::Read(REG_RAH0),
            Stage::Multicast(i) => RegAction::Write((REG_MTA + i * 4) as u32, 0),
            Stage::Program(k) => RegAction::Write(
                program(rx_ring_phys, tx_ring_phys, k).0,
                program(rx_ring_phys, tx_ring_phys, k).1,
            ),
            Stage::ReadStatus => RegAction::Read(REG_STATUS),
            Stage::Up(link) => RegAction::Done(link),
        }
    }

    /// The stage once the access gave `v`.
    pub open spec fn stepped(self, v: u32) -> Stage {
        match self {
            Stage::MaskInterrupts => Stage::ClearPending,
            Stage::ClearPending => Stage::ReadControl,
            Stage::ReadControl => Stage::Reset(v),
            Stage::Reset(_) => Stage::AwaitReset(0),
            Stage::AwaitReset(n) => if v & CTRL_RST == 0 || n + 1 >= RESET_POLLS {
                Stage::ReadLink
            } else {
                Stage::AwaitReset((n + 1) as u32)
            },
            Stage::ReadLink => Stage::SetLink(v),
            Stage::SetLink(_) => Stage::ReadLow,
            Stage::ReadLow => Stage::ReadHigh(v),
            Stage::ReadHigh(_) => Stage::Multicast(0),
            Stage::Multicast(i) => if i + 1 < MTA_ENTRIES {
                Stage::Multicast((i + 1) as u32)
            } else {
                Stage::Program(0)
            },
            Stage::Program(k) => if k + 1 < PROGRAM_STEPS {
                Stage::Program((k + 1) as u32)
            } else {
                Stage::ReadStatus
            },
            Stage::ReadStatus => Stage::Up(v & STATUS_LU != 0),
            Stage::Up(link) => Stage::Up(link),
        }
    }

    /// How many accesses are left at most.
    pub open spec fn left(self) -> int {
        match self {
            Stage::MaskInterrupts => 100_149,
            Stage::ClearPending => 100_148,
            Stage::ReadControl => 100_147,
            Stage::Reset(_) => 100_146,
            Stage::AwaitReset(n) => if n < RESET_POLLS {
                100_145 - n
            } else {
                146
            },
            Stage::ReadLink => 145,
            Stage::SetLink(_) => 144,
            Stage::ReadLow => 143,
            Stage::ReadHigh(_) => 142,
            Stage::Multicast(i) => if i < MTA_ENTRIES {
                141 - i
            } else {
                14
            },
            Stage::Program(k) => if k < PROGRAM_STEPS {
                13 - k
            } else {
                2
            },
            Stage::ReadStatus => 1,
            Stage::Up(_) => 0,
        }
    }
}

/// The bring-up of a card: which register is accessed next.
pub struct Bringup {
    pub nic: Nic,
    pub stage: Stage,
}

impl Bringup {
    pub open spec fn wf(self) -> bool {
        match self.stage {
            Stage::Multicast(i) => i < MTA_ENTRIES,
            Stage::Program(k) => k < PROGRAM_STEPS,
            Stage::AwaitReset(n) => n < RESET_POLLS,
            _ => true,
        }
    }

    /// Start the bring-up of `nic`.
    pub fn configure(nic: Nic) -> (r: Bringup)
        ensures
            r.wf(),
            r.nic == nic,
            r.stage == Stage::MaskInterrupts,
    {
        Bringup { nic, stage: Stage::MaskInterrupts }
    }

    /// The next register access.
    pub fn action(&self) -> (r: RegAction)
        requires
            self.wf(),
        ensures
            r == self.stage.wanted(self.nic.rx_ring_phys, self.nic.tx_ring_phys),
    {
        match self.stage {
            Stage::MaskInterrupts => RegAction::Write(REG_IMC, 0x7fff_ffff),
            Stage::ClearPending => RegAction::Read(REG_ICR),
            Stage::ReadControl => RegAction::Read(REG_CTRL),
            Stage::Reset(ctrl) => RegAction::Write(REG_CTRL, ctrl | CTRL_RST),
            Stage::AwaitReset(_) => RegAction::Read(REG_CTRL),
            Stage::ReadLink => RegAction::Read(REG_CTRL),
            Stage::SetLink(ctrl) => RegAction::Write(REG_CTRL, ctrl | CTRL_SLU),
            Stage::ReadLow => RegAction::Read(REG_RAL0),
            Stage::ReadHigh(_) => RegAction::Read(REG_RAH0),
            Stage::Multicast(i) => RegAction::Write(REG_MTA + i * 4, 0),
            Stage::Program(k) => {
                let (reg, value) = self.program_step(k);
                RegAction::Write(reg, value)
            },
            Stage::ReadStatus => RegAction::Read(REG_STATUS),
            Stage::Up(link) => RegAction::Done(link),
        }
    }

    fn program_step(&self, k: u32) -> (r: (u32, u32))
        ensures
            r == program(self.nic.rx_ring_phys, self.nic.tx_ring_phys, k),
    {
        match k {
            0 => (REG_RDBAL, (self.nic.rx_ring_phys % 0x1_0000_0000) as u32),
            1 => (REG_RDBAH, 0),
            2 => (REG_RDLEN, 128),
            3 => (REG_RDH, 0),
            4 => (REG_RDT, 7),
            5 => (REG_RCTL, RCTL_EN + RCTL_UPE),
            6 => (REG_TDBAL, (self.nic.tx_ring_phys % 0x1_0000_0000) as u32),
            7 => (REG_TDBAH, 0),
            8 => (REG_TDLEN, 128),
            9 => (REG_TCTL, TCTL_EN),
            10 => (REG_TDH, 0),
            _ => (REG_TDT, 0),
        }
    }

    /// Go on with the value that the access gave (any value after a write).
    pub fn step(&mut self, v: u32)
        requires
            old(self).wf(),
        ensures
            final(self).wf(),
            final(self).stage == old(self).stage.stepped(v),
            final(self).nic@ == match old(self).stage {
                Stage::ReadHigh(ral) => NicView { mac: mac_from(ral, v), ..old(self).nic@ },
                _ => old(self).nic@,
            },
            old(self).stage !is Up ==> final(self).stage.left() < old(self).stage.left(),
    {
        let next = match self.stage {
            Stage::MaskInterrupts => Stage::ClearPending,
            Stage::ClearPending => Stage::ReadControl,
            Stage::ReadControl => Stage::Reset(v),
            Stage::Reset(_) => Stage::AwaitReset(0),
            Stage::AwaitReset(n) => {
                if v & CTRL_RST == 0 || n + 1 >= RESET_POLLS {
                    Stage::ReadLink
                } else {
                    Stage::AwaitReset(n + 1)
                }
            },
            Stage::ReadLink => Stage::SetLink(v),
            Stage::SetLink(_) => Stage::ReadLow,
            Stage::ReadLow => Stage::ReadHigh(v),
            Stage::ReadHigh(ral) => {
                self.nic.mac = [
                    (ral % 256) as u8,
                    (ral / 256 % 256) as u8,
                    (ral / 0x1_0000 % 256) as u8,
                    (ral / 0x100_0000) as u8,
                    (v % 256) as u8,
                    (v / 256 % 256) as u8,
                ];
                Stage::Multicast(0)
            },
            Stage::Multicast(i) => {
                if i + 1 < MTA_ENTRIES {
                    Stage::Multicast(i + 1)
                } else {
                    Stage::Program(0)
                }
            },
            Stage::Program(k) => {
                if k + 1 < PROGRAM_STEPS {
                    Stage::Program(k + 1)
                } else {
                    Stage::ReadStatus
                }
            },
            Stage::ReadStatus => Stage::Up(v & STATUS_LU != 0),
            Stage::Up(link) => Stage::Up(link),
        };
        self.stage = next;
    }

    /// Hand over the card.
    pub fn finish(self) -> (r: Nic)
        ensures
            r == self.nic,
    {
        self.nic
    }
}

/// The stage after the device gave `answers`, one per access.
pub open spec fn driven(s: Stage, answers: Seq<u32>) -> Stage
    decreases answers.len(),
{
    if answers.len() == 0 {
        s
    } else {
        driven(s, answers.drop_last()).stepped(answers.last())
    }
}

proof fn lemma_driven(s: Stage, answers: Seq<u32>)
    ensures
        driven(s, answers) is Up || driven(s, answers).left() <= s.left() - answers.len(),
    decreases answers.len(),
{
    if answers.len() > 0 {
        lemma_driven(s, answers.drop_last());
    }
}

/// The bring-up ends after a bounded number of accesses, whatever the device
/// answers.
pub proof fn law_bringup_ends(answers: Seq<u32>)
    requires
        answers.len() >= 100_149,
    ensures
        driven(Stage::MaskInterrupts, answers) is Up,
{
    lemma_driven(Stage::MaskInterrupts, answers);
    assert(driven(Stage::MaskInterrupts, answers).left() >= 0);
}

/// What sending queues for the device, in order: the frame's bytes for the transmit
/// buffer; a descriptor for that buffer, with the frame's length and the command to
/// send it, in the ring slot that comes next; and the doorbell, which names the slot
/// behind it. The receive side is left alone.
pub proof fn law_sent_frame_is_queued(n: NicView, frame: Seq<u8>)
    requires
        frame.len() <= 65535,
    ensures
        ({
            let after = n.sent(frame);
            let k = n.ops.len() as int;
            &&& after.ops.len() == k + 3
            &&& after.ops.take(k) == n.ops
            &&& after.ops[k] == NicOpView::TxBuffer(frame)
            &&& match after.ops[k + 1] {
                NicOpView::TxDesc(i, d) => i == n.tx_cursor % 8 && d.addr == n.tx_buf_phys && d.length
                    == frame.len() && d.cmd == 0x19 && d.status == 0 && d.offset == 0,
                _ => false,
            }
            &&& match after.ops[k + 2] {
                NicOpView::Register(reg, v) => reg == 0x3818 && v == (n.tx_cursor % 8 + 1) % 8,
                _ => false,
            }
            &&& after.tx_cursor % 8 == (n.tx_cursor % 8 + 1) % 8
            &&& after.mac == n.mac && after.rx_ring == n.rx_ring && after.rx_data == n.rx_data
            &&& after.rx_bufs == n.rx_bufs && after.rx_cursor == n.rx_cursor
            &&& after.tx_buf == n.tx_buf && after.tx_buf_phys == n.tx_buf_phys
        }),
{
    let after = n.sent(frame);
    assert(after.ops.take(n.ops.len() as int) =~= n.ops);
    assert(usize::MAX % 8 == 7);
}

/// What taking a frame queues for the device, in order: the slot's descriptor with its
/// buffer, length and status cleared, and the slot as the new end of the ring. The
/// next slot is polled then; the other slots and the transmit side are left alone.
pub proof fn law_taken_slot_is_returned(n: NicView, j: int)
    requires
        n.wf(),
        0 <= j < 8,
    ensures
        ({
            let i = n.rx_cursor as int % 8;
            let after = n.taken();
            let k = n.ops.len() as int;
            &&& after.ops.len() == k + 2
            &&& after.ops.take(k) == n.ops
            &&& match after.ops[k] {
                NicOpView::RxDesc(s, d) => s == i && d.addr == n.rx_bufs[i].1 && d.length == 0
                    && d.status == 0 && d.cmd == 0 && d == after.rx_ring[i],
                _ => false,
            }
            &&& match after.ops[k + 1] {
                NicOpView::Register(reg, v) => reg == 0x2818 && v == i,
                _ => false,
            }
            &&& after.rx_cursor as int % 8 == (i + 1) % 8
            &&& j != i ==> after.rx_ring[j] == n.rx_ring[j]
            &&& after.rx_data == n.rx_data && after.rx_bufs == n.rx_bufs && after.mac == n.mac
            &&& after.tx_cursor == n.tx_cursor
        }),
{
    let after = n.taken();
    assert(after.ops.take(n.ops.len() as int) =~= n.ops);
    assert(usize::MAX % 8 == 7);
}

/// When a slot holds a frame, and which: the lowest bit of its status is set and its
/// length is not zero; the frame is as many bytes of the slot's buffer.
pub proof fn law_slot_holds_frame(n: NicView, i: int, j: int)
    requires
        n.wf(),
        0 <= i < 8,
    ensures
        n.ready(i) <==> n.rx_ring[i].status % 2 == 1 && n.rx_ring[i].length > 0,
        n.frame(i).len() == n.rx_ring[i].length,
        0 <= j < n.rx_ring[i].length ==> n.frame(i)[j] == n.rx_data[i][j],
        n.rx_index() == n.rx_cursor as int % 8,
{
    let s = n.rx_ring[i].status;
    assert((s & 1 != 0) == (s % 2 == 1)) by (bit_vector);
    assert(n.rx_ring[i].length <= n.rx_data[i].len());
}

/// The address registers hold the MAC address with its first byte lowest: four bytes
/// in the low register and two in the high one.
pub proof fn law_address_registers(ral: u32, rah: u32)
    ensures
        ({
            let m = mac_from(ral, rah);
            &&& m[0] + m[1] * 0x100 + m[2] * 0x1_0000 + m[3] * 0x100_0000 == ral
            &&& m[4] + m[5] * 0x100 == rah % 0x1_0000
        }),
{
    let m = mac_from(ral, rah);
    assert(m[0] == ral % 256);
    assert(m[1] == ral / 256 % 256);
    assert(m[2] == ral / 0x1_0000 % 256);
    assert(m[3] == ral / 0x100_0000);
    assert(m[4] == rah % 256);
    assert(m[5] == rah / 256 % 256);
}

/// What the rings are programmed with, register by register: the rings' addresses,
/// which lie below 4 GiB, 128 bytes for eight descriptors each, seven of the eight
/// receive slots given to the device, and both directions enabled.
pub proof fn law_ring_registers(rx: u64, tx: u64)
    requires
        rx <= 0xffff_ffff,
        tx <= 0xffff_ffff,
    ensures
        program(rx, tx, 0) == (0x2800u32, rx as u32),
        program(rx, tx, 1) == (0x2804u32, 0u32),
        program(rx, tx, 2) == (0x2808u32, 128u32),
        program(rx, tx, 3) == (0x2810u32, 0u32),
        program(rx, tx, 4) == (0x2818u32, 7u32),
        program(rx, tx, 5) == (0x100u32, 6u32),
        program(rx, tx, 6) == (0x3800u32, tx as u32),
        program(rx, tx, 7) == (0x3804u32, 0u32),
        program(rx, tx, 8) == (0x3808u32, 128u32),
        program(rx, tx, 9) == (0x400u32, 1u32),
        program(rx, tx, 10) == (0x3810u32, 0u32),
        program(rx, tx, 11) == (0x3818u32, 0u32),
{
}

/// The accesses of the bring-up: where they go, and which bits they set. A reset sets
/// bit 26 of the control register and is over once that bit is clear; "set link up"
/// is bit 6. The other bits are kept. The link is up if bit 1 of the status is set.
pub proof fn law_bringup_accesses(rx: u64, tx: u64, ctrl: u32, i: u32, v: u32)
    requires
        i < 128,
    ensures
        Stage::MaskInterrupts.wanted(rx, tx) == RegAction::Write(0x68, 0x7fff_ffff),
        Stage::ClearPending.wanted(rx, tx) == RegAction::Read(0xc0),
        Stage::ReadControl.wanted(rx, tx) == RegAction::Read(0),
        match Stage::ReadControl.stepped(ctrl).wanted(rx, tx) {
            RegAction::Write(reg, w) => reg == 0 && w == if ctrl / 0x400_0000 % 2 == 1 {
                ctrl as int
            } else {
                ctrl + 0x400_0000
            },
            _ => false,
        },
        Stage::AwaitReset(i).wanted(rx, tx) == RegAction::Read(0),
        v / 0x400_0000 % 2 == 0 ==> Stage::AwaitReset(i).stepped(v) == Stage::ReadLink,
        v / 0x400_0000 % 2 == 1 ==> Stage::AwaitReset(i).stepped(v) == Stage::AwaitReset(
            (i + 1) as u32,
        ),
        Stage::AwaitReset(99_998).stepped(0xffff_ffff) == Stage::AwaitReset(99_999),
        Stage::AwaitReset(99_999).stepped(v) == Stage::ReadLink,
        Stage::ReadLink.wanted(rx, tx) == RegAction::Read(0),
        match Stage::ReadLink.stepped(ctrl).wanted(rx, tx) {
            RegAction::Write(reg, w) => reg == 0 && w == if ctrl / 0x40 % 2 == 1 {
                ctrl as int
            } else {
                ctrl + 0x40
            },
            _ => false,
        },
        Stage::ReadLow.wanted(rx, tx) == RegAction::Read(0x5400),
        Stage::ReadLow.stepped(v).wanted(rx, tx) == RegAction::Read(0x5404),
        Stage::Multicast(i).wanted(rx, tx) == RegAction::Write((0x2c00 + 4 * i) as u32, 0),
        i < 127 ==> Stage::Multicast(i).stepped(v) == Stage::Multicast((i + 1) as u32),
        i == 127 ==> Stage::Multicast(i).stepped(v) == Stage::Program(0),
        i < 11 ==> Stage::Program(i).stepped(v) == Stage::Program((i + 1) as u32),
        i == 11 ==> Stage::Program(i).stepped(v) == Stage::ReadStatus,
        Stage::ReadStatus.wanted(rx, tx) == RegAction::Read(8),
        Stage::ReadStatus.stepped(v) == Stage::Up(v / 2 % 2 == 1),
{
    assert(ctrl | 0x400_0000 == if ctrl / 0x400_0000 % 2 == 1 {
        ctrl
    } else {
        (ctrl + 0x400_0000) as u32
    }) by (bit_vector);
    assert(ctrl / 0x400_0000 % 2 == 0 ==> ctrl <= 0xfbff_ffff) by (bit_vector);
    assert(ctrl | 0x40 == if ctrl / 0x40 % 2 == 1 {
        ctrl
    } else {
        (ctrl + 0x40) as u32
    }) by (bit_vector);
    assert(ctrl / 0x40 % 2 == 0 ==> ctrl <= 0xffff_ffbf) by (bit_vector);
    assert((v & 0x400_0000 == 0) == (v / 0x400_0000 % 2 == 0)) by (bit_vector);
    assert(0xffff_ffffu32 & 0x400_0000 != 0) by (bit_vector);
    assert((v & 2 != 0) == (v / 2 % 2 == 1)) by (bit_vector);
}

/// Once the card is found, its command register is read and written back with bits 1
/// (memory space) and 2 (bus master) set and the others kept.
pub proof fn law_card_is_enabled(dev: u8, base: u64, cmd: u32)
    ensures
        PciScan::Command(dev, base).wanted() == (PciAction::Read { dev, offset: 4 }),
        match PciScan::Command(dev, base).stepped(cmd).wanted() {
            PciAction::Write { dev: d, offset, value } => {
                &&& d == dev && offset == 4
                &&& value / 8 == cmd / 8
                &&& value / 2 % 4 == 3
                &&& value % 2 == cmd % 2
            },
            _ => false,
        },
        PciScan::Command(dev, base).stepped(cmd).stepped(0) == PciScan::Found(dev, base),
        PciScan::Found(dev, base).wanted() == PciAction::Done(Some((dev, 0u8, base))),
        PciScan::Absent.wanted() == PciAction::Done(None),
{
    assert((cmd | 6) / 8 == cmd / 8) by (bit_vector);
    assert((cmd | 6) / 2 % 4 == 3) by (bit_vector);
    assert((cmd | 6) % 2 == cmd % 2) by (bit_vector);
}

/// Every page of the window that is not mapped yet is listed, with its frame: page `i`
/// is the one that holds byte `i * 4096` of the window.
pub proof fn law_missing_page_is_listed(virt: u64, phys: u64, mapped: Seq<bool>, i: int)
    requires
        virt + mapped.len() * 4096 <= u64::MAX,
        phys + mapped.len() * 4096 <= u64::MAX,
        0 <= i < mapped.len(),
        !mapped[i],
    ensures
        exists|k: int|
            0 <= k < missing_pages(virt, phys, mapped).len() && is_page_pair(
                #[trigger] missing_pages(virt, phys, mapped)[k],
                virt + i * 4096,
                phys + i * 4096,
            ),
    decreases mapped.len(),
{
    let front = mapped.drop_last();
    let rest = missing_pages(virt, phys, front);
    let all = missing_pages(virt, phys, mapped);
    if i < mapped.len() - 1 {
        law_missing_page_is_listed(virt, phys, front, i);
        let k = choose|k: int|
            0 <= k < rest.len() && is_page_pair(
                #[trigger] rest[k],
                virt + i * 4096,
                phys + i * 4096,
            );
        assert(all[k] == rest[k]);
    } else {
        let k = rest.len() as int;
        assert(all[k] == (page_of((virt + i * 4096) as u64), page_of((phys + i * 4096) as u64)));
        crate::memory::vmm::law_page_holds_address((virt + i * 4096) as u64);
        crate::memory::vmm::law_page_holds_address((phys + i * 4096) as u64);
    }
}

/// Every page that is listed is one of the window that is not mapped yet, with its
/// frame.
pub proof fn law_listed_page_is_missing(virt: u64, phys: u64, mapped: Seq<bool>, k: int)
    requires
        virt + mapped.len() * 4096 <= u64::MAX,
        phys + mapped.len() * 4096 <= u64::MAX,
        0 <= k < missing_pages(virt, phys, mapped).len(),
    ensures
        exists|i: int|
            0 <= i < mapped.len() && !(#[trigger] mapped[i]) && is_page_pair(
                missing_pages(virt, phys, mapped)[k],
                virt + i * 4096,
                phys + i * 4096,
            ),
    decreases mapped.len(),
{
    if mapped.len() > 0 {
        let front = mapped.drop_last();
        let rest = missing_pages(virt, phys, front);
        let n = mapped.len() - 1;
        if k < rest.len() {
            law_listed_page_is_missing(virt, phys, front, k);
            let i = choose|i: int|
                0 <= i < front.len() && !(#[trigger] front[i]) && is_page_pair(
                    rest[k],
                    virt + i * 4096,
                    phys + i * 4096,
                );
            assert(!mapped[i]);
        } else {
            assert(!mapped[n]);
            crate::memory::vmm::law_page_holds_address((virt + n * 4096) as u64);
            crate::memory::vmm::law_page_holds_address((phys + n * 4096) as u64);
        }
    }
}

/// Whether `p` is the page that holds address `virt` with the frame that holds `phys`.
pub open spec fn is_page_pair(p: (u64, u64), virt: int, phys: int) -> bool {
    &&& p.0 % 4096 == 0 && p.0 <= virt < p.0 + 4096
    &&& p.1 % 4096 == 0 && p.1 <= phys < p.1 + 4096
}

/// How a card is laid out in memory: eleven frames that are all different, every
/// virtual address at the offset from its physical one, every receive slot with a
/// buffer of its own, and no frame received yet.
pub proof fn law_card_layout(base: u64, offset: u64, p: Seq<u64>, i: int, j: int)
    requires
        p.len() == 11,
        forall|a: int, b: int| 0 <= a < b < 11 ==> p[a] != p[b],
        forall|a: int| 0 <= a < 11 ==> #[trigger] p[a] < MAX_PHYS,
        offset + MAX_PHYS <= u64::MAX,
        0 <= i < 8,
        0 <= j < 8,
    ensures
        ({
            let n = built(base, offset, p);
            &&& n.base == base
            &&& n.rx_ring.len() == 8 && n.rx_bufs.len() == 8
            &&& n.rx_bufs[i].0 == offset + n.rx_bufs[i].1
            &&& n.rx_ring[i].addr == n.rx_bufs[i].1 && n.rx_ring[i].status == 0
            &&& !n.ready(i)
            &&& i != j ==> n.rx_bufs[i].1 != n.rx_bufs[j].1
            &&& n.tx_buf == offset + n.tx_buf_phys
            &&& n.rx_ring_virt == offset + n.rx_ring_phys
            &&& n.tx_ring_virt == offset + n.tx_ring_phys
            &&& n.rx_ring_phys != n.tx_ring_phys && n.tx_buf_phys != n.rx_ring_phys && n.tx_buf_phys
                != n.tx_ring_phys
            &&& n.rx_bufs[i].1 != n.tx_buf_phys && n.rx_bufs[i].1 != n.rx_ring_phys && n.rx_bufs[i].1
                != n.tx_ring_phys
            &&& n.rx_cursor == 0 && n.tx_cursor == 0
            &&& n.ops.len() == 11
            &&& n.ops[0] == NicOpView::ZeroPage(n.rx_ring_virt)
            &&& n.ops[1] == NicOpView::ZeroPage(n.tx_ring_virt)
            &&& n.ops[2] == NicOpView::ZeroPage(n.tx_buf)
            &&& n.ops[3 + i] == NicOpView::RxDesc(i as usize, n.rx_ring[i])
        }),
{
    let n = built(base, offset, p);
    assert(p[i + 2] < MAX_PHYS && p[0] < MAX_PHYS && p[1] < MAX_PHYS && p[10] < MAX_PHYS);
    assert(p[i + 2] != p[10] && p[0] != p[i + 2] && p[1] != p[i + 2]);
    if i < j {
        assert(p[i + 2] != p[j + 2]);
    }
    if j < i {
        assert(p[j + 2] != p[i + 2]);
    }
    let s = 0u8;
    assert(s & 1 == 0) by (bit_vector)
        requires
            s == 0,
    ;
}

} // verus!
