use simplelinux::drivers::keyboard;
use simplelinux::fs::{self, Vfs};
use simplelinux::memory::heap::HeapStats;
use simplelinux::net::ethernet::MacAddr;
use simplelinux::net::{arp, socket, Event, GATEWAY, IP};
use simplelinux::shell::{self, Reply, Shell, ShellStep};
use simplelinux::syscall::{self, Kernel, SyscallFrame, SyscallNr, UserMemory};
use simplelinux::system::System;

const TASKS: [(u32, &str); 2] = [(1, "running"), (12, "blocked")];

fn archive() -> Vec<u8> {
    let mut t = Vec::new();
    let long: Vec<u8> = (0..600).map(|i| b'a' + (i % 26) as u8).collect();
    let mut accent = vec![b'a'; 255];
    accent.extend_from_slice("\u{e9}".as_bytes());
    let mut tail = vec![b'b'; 256];
    tail.push(0xff);
    let files: [(&str, Vec<u8>); 6] = [
        ("motd.txt", b"Welcome!\n".to_vec()),
        ("long", long),
        ("raw", vec![0xff; 300]),
        ("accent", accent),
        ("tail", tail),
        ("mixed", b"one\xff\xfetwo\xc3\xa9\xe2\x82three".to_vec()),
    ];
    for (name, data) in files {
        let mut h = vec![0u8; 512];
        h[..name.len()].copy_from_slice(name.as_bytes());
        let size = format!("{:011o}", data.len());
        h[124..135].copy_from_slice(size.as_bytes());
        h[156] = b'0';
        t.extend(h);
        t.extend(data);
        while t.len() % 512 != 0 {
            t.push(0);
        }
    }
    t
}

fn kernel() -> Kernel {
    let mut vfs = Vfs::new();
    fs::init(&mut vfs, &archive());
    let mut sys = System::new(HeapStats { used: 3000, free: 5000, total: 8000 });
    sys.frames.mark_free_range(0..1024 * 4096);
    Kernel { vfs, sys }
}

fn call(k: &mut Kernel, rax: u64, rdi: u64, rsi: u64, rdx: u64, user: &mut [u8]) -> i64 {
    let mut f = SyscallFrame { rax, rdi, rsi, rdx, rbx: 77, ..SyscallFrame::default() };
    assert_eq!(syscall::syscall_dispatch(k, &mut f, user), None);
    assert_eq!(f, SyscallFrame { rax: f.rax, rdi, rsi, rdx, rbx: 77, ..SyscallFrame::default() });
    f.rax as i64
}

#[test]
fn calls_have_numbers() {
    assert_eq!(SyscallNr::from_number(1), Some(SyscallNr::Write));
    assert_eq!(SyscallNr::from_number(2), Some(SyscallNr::Exit));
    assert_eq!(SyscallNr::from_number(3), Some(SyscallNr::Open));
    assert_eq!(SyscallNr::from_number(4), Some(SyscallNr::Read));
    assert_eq!(SyscallNr::from_number(5), Some(SyscallNr::Close));
    assert_eq!(SyscallNr::from_number(6), Some(SyscallNr::Socket));
    assert_eq!(SyscallNr::from_number(7), Some(SyscallNr::Bind));
    assert_eq!(SyscallNr::from_number(8), Some(SyscallNr::Connect));
    assert_eq!(SyscallNr::from_number(0), None);
    assert_eq!(SyscallNr::from_number(9), None);
}

#[test]
fn calls_name_their_user_memory() {
    let mut f = SyscallFrame { rax: 1, rsi: 0x1000, rdx: 10, ..SyscallFrame::default() };
    assert_eq!(syscall::user_memory(&f), UserMemory::Bytes { addr: 0x1000, len: 10 });
    f.rdx = 5000;
    f.rax = 4;
    assert_eq!(syscall::user_memory(&f), UserMemory::Bytes { addr: 0x1000, len: 4096 });
    f.rax = 3;
    f.rdi = 0x2000;
    assert_eq!(syscall::user_memory(&f), UserMemory::Text { addr: 0x2000, limit: 256 });
    f.rax = 5;
    assert_eq!(syscall::user_memory(&f), UserMemory::Nothing);
}

#[test]
fn write_reaches_the_console() {
    let mut k = kernel();
    assert_eq!(call(&mut k, 1, 1, 0, 5, &mut *b"hello".to_vec()), 5);
    assert_eq!(k.sys.serial.take_pending(), b"hello".to_vec());
    assert_eq!(call(&mut k, 1, 50, 0, 1, &mut [0]), -22);
    assert_eq!(call(&mut k, 1, u64::MAX, 0, 1, &mut [0]), -22);
}

#[test]
fn open_read_close() {
    let mut k = kernel();
    let fd = call(&mut k, 3, 0, 0, 0, &mut *b"/initrd/motd.txt\0junk".to_vec());
    assert_eq!(fd, 3);
    let mut buf = [0u8; 20];
    assert_eq!(call(&mut k, 4, 3, 0, 20, &mut buf), 9);
    assert_eq!(&buf[..9], b"Welcome!\n");
    assert_eq!(call(&mut k, 4, 3, 0, 20, &mut buf), 0);
    assert_eq!(call(&mut k, 1, 3, 0, 20, &mut buf), -13);
    assert_eq!(call(&mut k, 5, 3, 0, 0, &mut []), 0);
    assert_eq!(call(&mut k, 5, 3, 0, 0, &mut []), -22);
    assert_eq!(call(&mut k, 3, 0, 0, 0, &mut *b"/nope\0".to_vec()), -2);
    assert_eq!(call(&mut k, 3, 0, 0, 0, &mut *b"nope\0".to_vec()), -22);
}

#[test]
fn paths_must_end_and_be_text() {
    assert_eq!(syscall::read_user_cstr(b"/dev/null\0x"), Some("/dev/null".to_string()));
    assert_eq!(syscall::read_user_cstr(b"\0"), Some(String::new()));
    assert_eq!(syscall::read_user_cstr(&[0xff, 0]), None);
    let mut long = vec![b'a'; 300];
    assert_eq!(syscall::read_user_cstr(&long), None);
    long[256] = 0;
    assert_eq!(syscall::read_user_cstr(&long), None);
    long[255] = 0;
    assert_eq!(syscall::read_user_cstr(&long).unwrap().len(), 255);
    let mut k = kernel();
    assert_eq!(call(&mut k, 3, 0, 0, 0, &mut [0xff, 0]), -22);
}

#[test]
fn sockets_through_calls() {
    let mut k = kernel();
    let fd = call(&mut k, 6, 17, 0, 0, &mut []) as u64;
    assert_eq!(fd, 3);
    assert_eq!(call(&mut k, 7, fd, 0x1_0050, 0, &mut []), 0);
    assert_eq!(call(&mut k, 8, fd, 0x0a00_0202, 9999, &mut []), 0);
    assert_eq!(socket::info(&k.sys.net.sockets), vec![(0, 17, 0x50, Some((GATEWAY, 9999)), 0)]);
    socket::deliver(&mut k.sys.net, 0x50, GATEWAY, 1, b"hi");
    let mut buf = [0u8; 4];
    assert_eq!(call(&mut k, 4, fd, 0, 4, &mut buf), 2);
    assert_eq!(&buf[..2], b"hi");
    // There is no card to send with.
    assert_eq!(call(&mut k, 1, fd, 0, 4, &mut buf), -5);
    // The console is no socket.
    assert_eq!(call(&mut k, 7, 1, 80, 0, &mut []), -22);
    assert_eq!(call(&mut k, 8, 1, 80, 0, &mut []), -22);
    // A socket that was closed behind its descriptor.
    socket::close(&mut k.sys.net.sockets, 0);
    assert_eq!(call(&mut k, 7, fd, 80, 0, &mut []), -22);
    assert_eq!(call(&mut k, 8, fd, 80, 0, &mut []), -22);
}

#[test]
fn sockets_without_a_descriptor() {
    let mut k = kernel();
    while fs::open(&mut k.vfs, "/dev/null").is_ok() {}
    assert_eq!(call(&mut k, 6, 17, 0, 0, &mut []), -28);
    assert_eq!(socket::info(&k.sys.net.sockets).len(), 1);
    assert_eq!(call(&mut k, 3, 0, 0, 0, &mut *b"/dev/null\0".to_vec()), -28);
}

#[test]
fn unknown_calls_and_exit() {
    let mut k = kernel();
    assert_eq!(call(&mut k, 0, 0, 0, 0, &mut []), -3);
    assert_eq!(call(&mut k, 9, 0, 0, 0, &mut []), -3);
    let mut f = SyscallFrame { rax: 2, rdi: 42, ..SyscallFrame::default() };
    assert_eq!(syscall::syscall_dispatch(&mut k, &mut f, &mut []), Some(42));
    assert_eq!(f.rax, 2);
}

#[test]
fn addresses_are_parsed() {
    assert_eq!(shell::parse_ip("10.0.2.2"), Some([10, 0, 2, 2]));
    assert_eq!(shell::parse_ip("255.255.255.255"), Some([255; 4]));
    assert_eq!(shell::parse_ip("+1.002.0.0"), Some([1, 2, 0, 0]));
    for bad in ["", "1.2.3", "1.2.3.4.5", "1.2.3.", ".1.2.3", "256.0.0.1", "1.2.3.x", "-1.2.3.4", "1.2.3.+", "1..2.3"] {
        assert_eq!(shell::parse_ip(bad), None, "{}", bad);
    }
}

fn run(k: &mut Kernel, line: &str) -> String {
    assert!(!shell::would_run_forever(k, line.as_bytes()));
    match shell::eval(k, &TASKS, line.as_bytes()) {
        Reply::Print(s) => s,
        _ => panic!("no text"),
    }
}

#[test]
fn plain_commands() {
    let mut k = kernel();
    assert_eq!(
        run(&mut k, "help"),
        "commands: help echo ls cat ps free ifconfig arp netstat ping net exit\n"
    );
    assert_eq!(run(&mut k, "  echo   a\tb  c "), "a b c\n");
    assert_eq!(run(&mut k, "echo"), "\n");
    assert_eq!(run(&mut k, "ps"), "[pid] state\n  1 running\n  12 blocked\n");
    assert_eq!(run(&mut k, "free"), "heap used=2 KiB free=4 KiB | physical free frames=1024 (4 MiB)\n");
    assert_eq!(run(&mut k, "frobnicate x"), "frobnicate: command not found (try 'help')\n");
}

#[test]
fn ls_command() {
    let mut k = kernel();
    assert_eq!(run(&mut k, "ls /initrd"), "/initrd: [\"motd.txt\", \"long\", \"raw\", \"accent\", \"tail\", \"mixed\"]\n");
    assert_eq!(run(&mut k, "ls /initrd/long"), "ls: /initrd/long -> NotDir\n");
    assert_eq!(run(&mut k, "ls /dev"), "/dev: [\"console\", \"null\", \"zero\", \"kbd\"]\n");
    assert_eq!(run(&mut k, "ls"), "ls: / -> NotFound\n");
    assert_eq!(run(&mut k, "ls /dev/null"), "ls: /dev/null -> NotDir\n");
    assert_eq!(run(&mut k, "ls x"), "ls: x -> InvalidArg\n");
    assert_eq!(shell::list_line("/x", "[\"y\"]"), "/x: [\"y\"]\n");
}

#[test]
fn cat_command() {
    let mut k = kernel();
    assert_eq!(run(&mut k, "cat /initrd/motd.txt"), "Welcome!\n");
    let long: String = (0..600).map(|i| (b'a' + (i % 26) as u8) as char).collect();
    assert_eq!(run(&mut k, "cat /initrd/long"), long);
    assert_eq!(run(&mut k, "cat /initrd/raw"), "<binary>");
    // Valid stretches stay; each other stretch is one mark.
    assert_eq!(run(&mut k, "cat /initrd/tail"), format!("{}<binary>", "b".repeat(256)));
    assert_eq!(run(&mut k, "cat /initrd/mixed"), "one<binary>two\u{e9}<binary>three");
    // A two-byte character that crosses byte 256.
    assert_eq!(run(&mut k, "cat /initrd/accent"), format!("{}\u{e9}", "a".repeat(255)));
    assert_eq!(run(&mut k, "cat /proc/uptime"), "0 seconds since boot\n");
    assert_eq!(run(&mut k, "cat /dev"), "");
    assert_eq!(run(&mut k, "cat"), "cat: missing operand\n");
    assert_eq!(run(&mut k, "cat /nope"), "cat: /nope -> NotFound\n");
    keyboard::inject_str(&mut k.sys.keyboard, "typed");
    assert_eq!(run(&mut k, "cat /dev/kbd"), "typed");
    // Every descriptor was given back.
    assert_eq!(fs::open(&mut k.vfs, "/dev/null"), Ok(3));
}

#[test]
fn endless_cat_is_known() {
    let mut k = kernel();
    assert!(shell::would_run_forever(&k, b"cat /dev/zero"));
    assert!(!shell::would_run_forever(&k, b"echo /dev/zero"));
    assert!(!shell::would_run_forever(&k, b"cat"));
    while fs::open(&mut k.vfs, "/dev/null").is_ok() {}
    assert_eq!(run(&mut k, "cat /dev/zero"), "cat: /dev/zero -> NoSpace\n");
}

#[test]
fn network_commands() {
    let mut k = kernel();
    assert_eq!(run(&mut k, "ifconfig"), "e1000: ip=10.0.2.15 gw=10.0.2.2 mac=00:00:00:00:00:00\n");
    assert_eq!(run(&mut k, "arp -a"), "arp cache empty\n");
    arp::handle(&mut k.sys.net, &arp::payload(2, MacAddr([0xab; 6]), GATEWAY, MacAddr([0; 6]), IP));
    assert_eq!(run(&mut k, "arp"), "  10.0.2.2 -> ab:ab:ab:ab:ab:ab\n");
    assert_eq!(run(&mut k, "netstat"), "  proto  local  peer            queue\n");
    let a = socket::socket(&mut k.sys.net.sockets, 17);
    socket::bind(&mut k.sys.net.sockets, a, 80);
    socket::deliver(&mut k.sys.net, 80, GATEWAY, 1, b"x");
    let b = socket::socket(&mut k.sys.net.sockets, 6);
    socket::connect(&mut k.sys.net.sockets, b, [192, 168, 100, 200], 65535);
    assert_eq!(
        run(&mut k, "netstat"),
        "  proto  local  peer            queue\n  udp    0    80 -               1\n  tcp    1     0 192.168.100.200:65535 0\n"
    );
    assert_eq!(run(&mut k, "ping"), "usage: ping a.b.c.d\n");
    assert_eq!(run(&mut k, "ping x"), "usage: ping a.b.c.d\n");
    assert!(matches!(shell::eval(&mut k, &TASKS, b"ping 10.0.2.2"), Reply::Ping([10, 0, 2, 2])));
    assert!(matches!(shell::eval(&mut k, &TASKS, b"net"), Reply::NetDemo));
    assert!(matches!(shell::eval(&mut k, &TASKS, b"exit"), Reply::Quit));
    assert!(matches!(shell::eval(&mut k, &TASKS, b"quit now"), Reply::Quit));
    assert!(matches!(shell::eval(&mut k, &TASKS, b"  "), Reply::Nothing));
    assert!(matches!(shell::eval(&mut k, &TASKS, &[0xff]), Reply::Nothing));
    assert_eq!(shell::words("a\u{3000}b\u{a0}c".as_bytes()), vec!["a", "b", "c"]);
}

#[test]
fn ping_sends_three_requests() {
    let mut k = kernel();
    let s = &mut k.sys.net;
    assert_eq!(shell::cmd_ping(s, [10, 0, 2, 9]), 5);
    assert_eq!(shell::ping_next(s, [10, 0, 2, 9], 1), Some(5));
    assert_eq!(shell::ping_next(s, [10, 0, 2, 9], 2), Some(5));
    assert_eq!(shell::ping_next(s, [10, 0, 2, 9], 3), None);
    let dst = [10, 0, 2, 9];
    assert_eq!(
        s.take_events(),
        vec![
            Event::ArpRequest { target: GATEWAY },
            Event::Ping { dst, seq: 1, len: 24 },
            Event::Ping { dst, seq: 2, len: 24 },
            Event::Ping { dst, seq: 3, len: 24 }
        ]
    );
    arp::handle(s, &arp::payload(2, MacAddr([1; 6]), dst, MacAddr([0; 6]), IP));
    s.take_events();
    shell::cmd_ping(s, dst);
    assert_eq!(s.take_events(), vec![Event::Ping { dst, seq: 1, len: 24 }]);
}

#[test]
fn session_runs_typed_lines() {
    let mut k = kernel();
    keyboard::inject_str(&mut k.sys.keyboard, "echo hx\u{8}i\n\nexit\nps\n");
    let mut sh = Shell::open(&mut k).ok().unwrap();
    let mut out = Vec::new();
    let mut sleeps = 0;
    loop {
        assert!(sh.peek().map_or(true, |l| !shell::would_run_forever(&k, &l)));
        match shell::run(&mut sh, &mut k, &TASKS) {
            ShellStep::More => {}
            ShellStep::Sleep(t) => {
                assert_eq!(t, 2);
                sleeps += 1;
            }
            ShellStep::Ran(Reply::Print(s)) => out.push(s),
            ShellStep::Ran(Reply::Quit) => break,
            ShellStep::Ran(_) => out.push(String::new()),
            ShellStep::Idle => panic!("idle"),
        }
    }
    assert_eq!(out, vec!["hi\n", ""]);
    assert_eq!(sleeps, 0);
    // The keyboard's descriptor was closed.
    assert_eq!(fs::open(&mut k.vfs, "/dev/null"), Ok(3));
}

#[test]
fn idle_session_ends() {
    let mut k = kernel();
    let mut sh = Shell::open(&mut k).ok().unwrap();
    for _ in 0..201 {
        assert!(matches!(shell::run(&mut sh, &mut k, &TASKS), ShellStep::Sleep(2)));
    }
    assert!(matches!(shell::run(&mut sh, &mut k, &TASKS), ShellStep::Idle));
    assert_eq!(fs::open(&mut k.vfs, "/dev/null"), Ok(3));
}

#[test]
fn input_ends_idleness() {
    let mut k = kernel();
    let mut sh = Shell::open(&mut k).ok().unwrap();
    for _ in 0..200 {
        shell::run(&mut sh, &mut k, &TASKS);
    }
    keyboard::inject_str(&mut k.sys.keyboard, "\u{1}x");
    assert!(matches!(shell::run(&mut sh, &mut k, &TASKS), ShellStep::More));
    assert_eq!(sh.idle, 0);
    assert!(matches!(shell::run(&mut sh, &mut k, &TASKS), ShellStep::More));
    assert_eq!(sh.line, b"x".to_vec());
    assert_eq!(sh.peek(), None);
}

#[test]
fn error_names() {
    assert_eq!(shell::error_name(fs::vfs::FsError::Io), "Io");
    assert_eq!(shell::error_name(fs::vfs::FsError::IsDir), "IsDir");
    assert_eq!(shell::error_name(fs::vfs::FsError::PermissionDenied), "PermissionDenied");
    assert_eq!(shell::cmd_help().len(), 70);
}
