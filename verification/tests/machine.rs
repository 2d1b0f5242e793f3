use simplelinux::drivers::e1000::{self, arp as probe, Bringup, Desc, NicOp, PciAction, PciScan, RegAction, Stage};
use simplelinux::drivers::keyboard::{self, KeyboardState};
use simplelinux::gdt;
use simplelinux::interrupts;
use simplelinux::memory::pmm::BitmapFrameAllocator;
use simplelinux::net::arp as net_arp;
use simplelinux::net::ethernet::{self, MacAddr};
use simplelinux::memory;
use simplelinux::runner;
use simplelinux::serial;
use simplelinux::timer::{self, Timer};
use simplelinux::vga::{self, Color, ScreenChar, Writer};
use std::collections::VecDeque;

fn keys(kb: &mut KeyboardState) -> Vec<u8> {
    let mut out = Vec::new();
    while let Some(b) = keyboard::read_key(kb) {
        out.push(b);
    }
    out
}

#[test]
fn scancodes_are_decoded() {
    let mut kb = KeyboardState::new();
    keyboard::inject(&mut kb, &[0x23, 0x12, 0x26, 0x26, 0x18]);
    assert_eq!(keys(&mut kb), b"hello".to_vec());
    assert_eq!(keyboard::read_key(&mut kb), None);
}

#[test]
fn shift_and_releases_are_tracked() {
    let mut kb = KeyboardState::new();
    // Left shift down, H down, H up, left shift up, H down.
    for s in [0x2a, 0x23, 0xa3, 0xaa, 0x23] {
        interrupts::keyboard_interrupt(&mut kb, s);
    }
    assert_eq!(keys(&mut kb), b"Hh".to_vec());
}

#[test]
fn keys_without_a_character_and_bad_bytes_are_dropped() {
    let mut kb = KeyboardState::new();
    // F1, an unknown extended code, then enter.
    keyboard::inject(&mut kb, &[0x3b, 0xe0, 0x7f, 0x1c]);
    assert_eq!(keys(&mut kb), b"\n".to_vec());
}

#[test]
fn typed_text_keeps_ascii_only() {
    let mut kb = KeyboardState::new();
    keyboard::inject_str(&mut kb, "a\u{e9}b\n");
    assert_eq!(keys(&mut kb), b"ab\n".to_vec());
    let mut q = VecDeque::new();
    keyboard::push(&mut q, 0x7f);
    keyboard::push(&mut q, 0x80);
    assert_eq!(q, VecDeque::from(vec![0x7f]));
    kb.queue(Some('x'));
    kb.queue(None);
    kb.queue(Some('\u{80}'));
    assert_eq!(keys(&mut kb), b"x".to_vec());
}

#[test]
fn segment_table_has_fixed_selectors() {
    let g = gdt::build(0x0000_8900_1000_0067, 0x0000_0000_ffff_8000);
    let s = g.selectors;
    assert_eq!((s.code, s.data, s.user_data, s.user_code, s.tss), (0x08, 0x10, 0x1b, 0x23, 0x28));
    let words: Vec<u64> = g.table.entries().iter().map(|e| e.raw()).collect();
    assert_eq!(
        words,
        vec![
            0,
            0x00af_9b00_0000_ffff,
            0x00cf_9300_0000_ffff,
            0x00cf_f300_0000_ffff,
            0x00af_fb00_0000_ffff,
            0x0000_8900_1000_0067,
            0x0000_0000_ffff_8000
        ]
    );
    assert_eq!(gdt::user_code_selector(&s), 0x23);
    assert_eq!(gdt::user_data_selector(&s), 0x1b);
    assert_eq!(gdt::kernel_code_selector(&s), 0x08);
}

#[test]
fn user_selector_asks_for_ring3() {
    let mut s = gdt::build(0, 0).selectors;
    s.user_code = 0x20;
    s.user_data = 0x18;
    assert_eq!(gdt::user_code_selector(&s), 0x23);
    assert_eq!(gdt::user_data_selector(&s), 0x1b);
}

#[test]
fn timer_and_keyboard_are_unmasked() {
    assert_eq!(interrupts::unmask([0xff, 0xff]), [0xfc, 0xff]);
    assert_eq!(interrupts::unmask([0xb8, 0x8e]), [0xb8, 0x8e]);
    assert_eq!(interrupts::TIMER_INTERRUPT_INDEX, 32);
    assert_eq!(interrupts::KEYBOARD_INTERRUPT_INDEX, 33);
}

#[test]
fn clock_counts_and_wraps() {
    let mut t = Timer::new();
    timer::tick(&mut t);
    assert_eq!(timer::ticks(&t), 1);
    t.ticks = u64::MAX;
    timer::tick(&mut t);
    assert_eq!(timer::ticks(&t), 0);
}

#[test]
fn clock_is_due_after_a_second() {
    assert!(!timer::clock_due(50, 149));
    assert!(timer::clock_due(50, 150));
    assert!(!timer::clock_due(7, 7));
}

#[test]
fn pit_divisor() {
    // 1193182 / 100 = 11931 = 0x2e9b
    assert_eq!(timer::init(), [(0x43, 0x36), (0x40, 0x9b), (0x40, 0x2e)]);
}

#[test]
fn console_keeps_bytes_in_order() {
    let mut s = serial::init();
    serial::_print(&mut s, "h\u{e9}");
    serial::write_bytes(&mut s, &[0xff, 0]);
    assert_eq!(s.take_pending(), vec![b'h', 0xc3, 0xa9, 0xff, 0]);
    assert!(s.take_pending().is_empty());
}

fn row(w: &Writer, r: usize) -> String {
    (0..80).map(|c| w.read_char(r, c).ascii_character as char).collect::<String>().trim_end().to_string()
}

#[test]
fn text_goes_to_the_last_row_and_scrolls() {
    let mut w = Writer::new();
    assert_eq!(w.color_code, 0x0a);
    w.write_str("one\ntwo");
    assert_eq!(row(&w, 23), "one");
    assert_eq!(row(&w, 24), "two");
    assert_eq!(w.column_position, 3);
    w.write_byte(b'\n');
    assert_eq!(row(&w, 22), "one");
    assert_eq!(row(&w, 23), "two");
    assert_eq!(row(&w, 24), "");
}

#[test]
fn full_rows_wrap() {
    let mut w = Writer::new();
    let line: String = "x".repeat(80);
    w.write_str(&line);
    assert_eq!(row(&w, 24), line);
    assert_eq!(w.column_position, 80);
    w.write_byte(b'y');
    assert_eq!(row(&w, 23), line);
    assert_eq!(row(&w, 24), "y");
}

#[test]
fn colors_are_packed() {
    let mut w = Writer::new();
    w.set_color(Color::Yellow, Color::Blue);
    assert_eq!(w.color_code, 0x1e);
    w.write_byte(b'A');
    assert_eq!(w.read_char(24, 0), ScreenChar { ascii_character: b'A', color_code: 0x1e });
    w.clear_row(24);
    assert_eq!(w.read_char(24, 0), ScreenChar { ascii_character: b' ', color_code: 0x1e });
    w.write_char(3, 4, ScreenChar { ascii_character: b'Z', color_code: 7 });
    assert_eq!(w.read_char(3, 4).ascii_character, b'Z');
    vga::init(&mut w);
    assert_eq!(row(&w, 3), "");
    assert_eq!(w.column_position, 0);
    assert_eq!((Color::Black.code(), Color::Pink.code(), Color::White.code()), (0, 13, 15));
}

#[test]
fn configuration_addresses() {
    assert_eq!(e1000::pci_address(0, 3, 0, 0x10), 0x8000_1810);
    assert_eq!(e1000::pci_address(1, 31, 7, 0xff), 0x8001_fffc);
}

fn scan(answer: fn(u8, u8) -> u32) -> (Option<(u8, u8, u64)>, Vec<(u8, u8, u32)>) {
    let mut s = PciScan::new();
    let mut writes = Vec::new();
    loop {
        match s.action() {
            PciAction::Read { dev, offset } => s = s.step(answer(dev, offset)),
            PciAction::Write { dev, offset, value } => {
                writes.push((dev, offset, value));
                s = s.step(0);
            }
            PciAction::Done(r) => return (r, writes),
        }
    }
}

#[test]
fn scan_finds_the_first_card() {
    let (found, writes) = scan(|dev, offset| match (dev, offset) {
        (1, 0) => 0x1237_8086,
        (3, 0) | (5, 0) => 0x100e_8086,
        (3, 0x10) => 0xfebc_000f,
        (3, 0x04) => 0x0103,
        _ => 0xffff_ffff,
    });
    assert_eq!(found, Some((3, 0, 0xfebc_0000)));
    assert_eq!(writes, vec![(3, 4, 0x0107)]);
}

#[test]
fn scan_finds_nothing_on_an_empty_bus() {
    assert_eq!(scan(|_, _| 0xffff_ffff), (None, Vec::new()));
    assert_eq!(scan(|_, _| 0x1237_8086), (None, Vec::new()));
}

#[test]
fn missing_register_pages_are_listed() {
    let r = e1000::map_mmio(0xffff_8000_fee0_0000, 0xfee0_0000, &[true, false, true, false]);
    assert_eq!(
        r,
        vec![(0xffff_8000_fee0_1000, 0xfee0_1000), (0xffff_8000_fee0_3000, 0xfee0_3000)]
    );
}

fn built() -> e1000::Nic {
    let mut a = BitmapFrameAllocator::new();
    a.mark_free_range(0x10_0000..0x10_b000);
    let n = e1000::build_nic(&mut a, 0xffff_8000_0000_0000, 0xffff_8000_fee0_0000);
    assert_eq!(a.free_count(), 0);
    n
}

#[test]
fn rings_and_buffers_are_laid_out() {
    let mut n = built();
    assert_eq!((n.rx_ring_phys, n.tx_ring_phys, n.tx_buf_phys), (0x10_0000, 0x10_1000, 0x10_a000));
    assert_eq!(n.tx_buf, 0xffff_8000_0010_a000);
    assert_eq!(n.rx_bufs[0], (0xffff_8000_0010_2000, 0x10_2000));
    assert_eq!(n.rx_bufs[7], (0xffff_8000_0010_9000, 0x10_9000));
    let ops = n.take_ops();
    assert_eq!(ops.len(), 11);
    assert!(matches!(ops[0], NicOp::ZeroPage(0xffff_8000_0010_0000)));
    assert!(matches!(ops[1], NicOp::ZeroPage(0xffff_8000_0010_1000)));
    assert!(matches!(ops[2], NicOp::ZeroPage(0xffff_8000_0010_a000)));
    assert!(matches!(&ops[10], NicOp::RxDesc(7, d) if d.addr == 0x10_9000 && d.length == 0));
}

fn bring_up(reset_sticks: bool) -> (e1000::Nic, bool, Vec<(u32, u32)>, usize) {
    let mut b = Bringup::configure(built());
    let mut writes = Vec::new();
    let mut steps = 0;
    loop {
        match b.action() {
            RegAction::Write(r, v) => {
                writes.push((r, v));
                b.step(0);
            }
            RegAction::Read(r) => {
                let v = match r {
                    0x0000 if reset_sticks => 0x0400_0008,
                    0x0000 => 0x0000_0008,
                    0x5400 => 0x1200_5452,
                    0x5404 => 0x8000_5634,
                    0x0008 => 0x8000_0003,
                    _ => 0,
                };
                b.step(v);
            }
            RegAction::Done(link) => return (b.finish(), link, writes, steps),
        }
        steps += 1;
    }
}

#[test]
fn bring_up_programs_the_card() {
    let (n, link, w, _) = bring_up(false);
    assert!(link);
    assert_eq!(n.mac, [0x52, 0x54, 0x00, 0x12, 0x34, 0x56]);
    assert_eq!(&w[0..3], &[(0x68, 0x7fff_ffff), (0x00, 0x0400_0008), (0x00, 0x48)]);
    assert_eq!(w[3], (0x2c00, 0));
    assert_eq!(w[130], (0x2c00 + 127 * 4, 0));
    assert_eq!(
        &w[131..],
        &[
            (0x2800, 0x10_0000),
            (0x2804, 0),
            (0x2808, 128),
            (0x2810, 0),
            (0x2818, 7),
            (0x0100, 6),
            (0x3800, 0x10_1000),
            (0x3804, 0),
            (0x3808, 128),
            (0x0400, 1),
            (0x3810, 0),
            (0x3818, 0)
        ]
    );
}

#[test]
fn bring_up_gives_up_on_a_stuck_reset() {
    let (_, link, w, steps) = bring_up(true);
    assert!(link);
    assert_eq!(steps, 100_149);
    assert_eq!(w[2], (0x00, 0x0400_0048));
    let b = Bringup::configure(built());
    assert_eq!(b.stage, Stage::MaskInterrupts);
}

#[test]
fn arp_request_frame_is_the_broadcast_arp_request() {
    let mac = [0x52, 0x54, 0, 0x12, 0x34, 0x56];
    let f = probe::arp_request(&mac, e1000::GATEWAY);
    assert_eq!(f.len(), 42);
    let p = net_arp::payload(1, MacAddr(mac), e1000::IP, MacAddr([0; 6]), e1000::GATEWAY);
    assert_eq!(f, ethernet::frame(MacAddr([0xff; 6]), MacAddr(mac), 0x0806, &p));
    assert!(!probe::is_arp_reply(&f));
}

fn reply() -> Vec<u8> {
    let p = net_arp::payload(2, MacAddr([9; 6]), e1000::GATEWAY, MacAddr([1; 6]), e1000::IP);
    ethernet::frame(MacAddr([1; 6]), MacAddr([9; 6]), 0x0806, &p)
}

#[test]
fn arp_replies_are_recognized() {
    let mut f = reply();
    assert!(probe::is_arp_reply(&f));
    assert!(!probe::is_arp_reply(&f[..41]));
    f[20] = 1;
    assert!(!probe::is_arp_reply(&f));
    f[20] = 0;
    f[12] = 0x86;
    assert!(!probe::is_arp_reply(&f));
}

#[test]
fn probe_asks_sleeps_and_finds_the_reply() {
    assert_eq!(probe::demo_arp(&mut None), probe::Probe::NoCard);
    let mut nic = Some(built());
    nic.as_mut().unwrap().take_ops();
    assert_eq!(probe::demo_arp(&mut nic), probe::Probe::Sleep(5));
    let ops = nic.as_mut().unwrap().take_ops();
    assert!(matches!(&ops[0], NicOp::TxBuffer(b) if *b == probe::arp_request(&[0; 6], e1000::GATEWAY)));
    assert_eq!(probe::demo_arp_round(&mut nic, 0), probe::Probe::Sleep(5));
    assert_eq!(probe::demo_arp_round(&mut nic, 39), probe::Probe::NoReply);
    let done = |len: usize| Desc { addr: 1, length: len as u16, tos: 0, cmd: 0, status: 1, css: 0, offset: 0 };
    let other = vec![0u8; 60];
    nic.as_mut().unwrap().load_rx(0, done(60), other);
    nic.as_mut().unwrap().load_rx(1, done(42), reply());
    let found = probe::ArpReply { ip: e1000::GATEWAY, mac: [9; 6] };
    assert_eq!(probe::demo_arp_round(&mut nic, 1), probe::Probe::Reply(found));
    assert_eq!(nic.as_ref().unwrap().rx_cursor, 2);
    assert_eq!(probe::poll_reply(&mut nic), None);
}

#[test]
fn runner_translates_exit_statuses() {
    assert_eq!(runner::exit_code(Some(0x10)), 0);
    assert_eq!(runner::exit_code(Some(0x11)), 1);
    assert_eq!(runner::exit_code(Some(0x21)), 0x21);
    assert_eq!(runner::exit_code(Some(0)), 0);
    assert_eq!(runner::exit_code(None), 1);
}

#[test]
fn runner_arguments() {
    let a = runner::qemu_args("/tmp/bios.img");
    assert_eq!(a.len(), 15);
    assert_eq!(&a[..4], &["-drive", "format=raw,file=/tmp/bios.img", "-m", "128M"]);
    assert_eq!(a[14], "e1000,netdev=n0");
}

#[test]
fn rounds_are_compared() {
    assert!(memory::stable(1000, 5, 2024, 5));
    assert!(memory::stable(1000, 5, 10, 5));
    assert!(!memory::stable(1000, 5, 2025, 5));
    assert!(!memory::stable(1000, 5, 1000, 4));
}
