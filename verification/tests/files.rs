use simplelinux::drivers::keyboard;
use simplelinux::fs::initrd::{self, Entry, Initrd};
use simplelinux::fs::vfs::{self, FileKind, FileSystem, FsError, Inode, Mounts};
use simplelinux::fs::{self, Vfs};
use simplelinux::memory::heap::HeapStats;
use simplelinux::net::{self, ip, socket, GATEWAY};
use simplelinux::system::System;

fn header(name: &[u8], size: &str, kind: u8) -> Vec<u8> {
    let mut h = vec![0u8; 512];
    h[..name.len()].copy_from_slice(name);
    h[124..124 + size.len()].copy_from_slice(size.as_bytes());
    h[156] = kind;
    h
}

fn file(name: &[u8], data: &[u8]) -> Vec<u8> {
    let mut v = header(name, &format!("{:011o}\0", data.len()), b'0');
    v.extend_from_slice(data);
    while v.len() % 512 != 0 {
        v.push(0);
    }
    v
}

fn tarball() -> Vec<u8> {
    let mut t = header(b"etc/", "00000000000\0", b'5');
    t.extend(file(b"motd.txt", b"Welcome!\n"));
    t.extend(file(b"etc/conf/net", &[b'n'; 700]));
    t.extend(file(b"empty", b""));
    t.extend(vec![0u8; 1024]);
    t
}

fn system() -> System {
    System::new(HeapStats { used: 2048, free: 1024 * 1022, total: 1024 * 1024 })
}

fn boot() -> (Vfs, System) {
    let mut v = Vfs::new();
    fs::init(&mut v, &tarball());
    (v, system())
}

fn read_all(v: &mut Vfs, s: &mut System, path: &str) -> Vec<u8> {
    fs::fs_cat(v, s, path, 4096).unwrap()
}

#[test]
fn octal_fields() {
    assert_eq!(initrd::octal(b"00000000017\0"), 15);
    assert_eq!(initrd::octal(b"  17 \0"), 15);
    assert_eq!(initrd::octal(b"1 7"), 15);
    assert_eq!(initrd::octal(b"18"), 1);
    assert_eq!(initrd::octal(b""), 0);
    assert_eq!(initrd::octal(b"777777777777"), 0o777777777777);
    // A long field with padding, and the largest number.
    assert_eq!(initrd::octal(b"17                            \0\0\0\0"), 15);
    assert_eq!(initrd::octal(b"000000000000000000000000000017"), 15);
    assert_eq!(initrd::octal(b"1777777777777777777777"), u64::MAX);
}

#[test]
fn c_strings() {
    assert_eq!(initrd::read_cstr(b"abc\0def"), "abc");
    assert_eq!(initrd::read_cstr(b"abc"), "abc");
    assert_eq!(initrd::read_cstr(b"\0abc"), "");
    assert_eq!(initrd::read_cstr(&[b'a', 0xff, b'b']), "a\u{fffd}b");
}

#[test]
fn parse_walks_the_archive() {
    let e = initrd::parse(&tarball());
    let seen: Vec<(&str, usize, bool)> = e.iter().map(|x| (x.path.as_str(), x.data.len(), x.is_dir)).collect();
    assert_eq!(
        seen,
        vec![("etc/", 0, true), ("motd.txt", 9, false), ("etc/conf/net", 700, false), ("empty", 0, false)]
    );
    assert_eq!(e[1].data, b"Welcome!\n".to_vec());
}

#[test]
fn parse_stops_at_the_end_of_a_cut_archive() {
    let mut t = file(b"big", &[7u8; 2000]);
    t.truncate(512 + 600);
    let e = initrd::parse(&t);
    assert_eq!(e.len(), 1);
    assert_eq!(e[0].data, vec![7u8; 600]);
    assert!(initrd::parse(&t[..511]).is_empty());
    assert!(initrd::parse(&[]).is_empty());
}

#[test]
fn parse_skips_what_is_neither_file_nor_directory() {
    let mut link = header(b"l", "00000000000", b'2');
    link.extend(vec![0u8; 512]);
    assert!(initrd::parse(&link).is_empty());
    // A skipped header takes its data along; a NUL type is a regular file.
    let mut t = header(b"odd", "00000001000", b'7');
    t.extend(vec![b'x'; 512]);
    let mut old = file(b"old", b"abc");
    old[156] = 0;
    t.extend(old);
    let e = initrd::parse(&t);
    assert_eq!(e.len(), 1);
    assert_eq!((e[0].path.as_str(), e[0].data.as_slice(), e[0].is_dir), ("old", &b"abc"[..], false));
}

#[test]
fn root_mount_serves_the_rest() {
    let mut m = Mounts::new();
    vfs::mount(&mut m, "/dev", FileSystem::Dev(fs::devfs::DevFs));
    vfs::mount(&mut m, "/", FileSystem::Ramdisk(Initrd::from_tar(&tarball())));
    assert!(matches!(vfs::resolve(&m, "/dev/null"), Ok(Inode::Null)));
    assert_eq!(vfs::resolve(&m, "/").ok().unwrap().list_dir().unwrap(), vec!["etc", "motd.txt", "empty"]);
    assert_eq!(vfs::resolve(&m, "/etc/conf").ok().unwrap().kind(), FileKind::Dir);
    assert!(matches!(vfs::resolve(&m, "/device"), Err(FsError::NotFound)));
}

#[test]
fn entries_build_a_tree() {
    let fs0 = Initrd::from_tar(&tarball());
    assert_eq!(fs0.name(), "initrd");
    assert_eq!(fs0.root.list_dir(), vec!["etc", "motd.txt", "empty"]);
    let etc = &fs0.root.children[0];
    assert_eq!(etc.kind, FileKind::Dir);
    assert_eq!(etc.list_dir(), vec!["conf"]);
    assert_eq!(etc.children[0].children[0].data.len(), 700);
    assert_eq!(initrd::find_child(&fs0.root, &"empty".to_string()), Some(2));
    assert_eq!(initrd::find_child(&fs0.root, &"nope".to_string()), None);
}

#[test]
fn inserting_keeps_what_was_there() {
    let mut fs0 = Initrd::from_tar(&[]);
    assert!(fs0.root.list_dir().is_empty());
    fs0.insert(&Entry { path: "a/b".to_string(), data: vec![1], is_dir: false });
    fs0.insert(&Entry { path: "/a//c/".to_string(), data: vec![2], is_dir: true });
    fs0.insert(&Entry { path: "//".to_string(), data: vec![3], is_dir: false });
    assert_eq!(fs0.root.list_dir(), vec!["a"]);
    assert_eq!(fs0.root.children[0].list_dir(), vec!["b", "c"]);
    assert_eq!(fs0.root.children[0].children[0].data, vec![1]);
    // A second entry at a path is behind the first.
    fs0.insert(&Entry { path: "a/b".to_string(), data: vec![9], is_dir: false });
    assert_eq!(fs0.root.children[0].list_dir(), vec!["b", "c", "b"]);
    assert_eq!(initrd::find_child(&fs0.root.children[0], &"b".to_string()), Some(0));
}

fn chars(s: &str) -> Vec<char> {
    s.chars().collect()
}

#[test]
fn prefixes_cover_whole_components() {
    assert!(vfs::covers(&chars("/dev"), &chars("/dev")));
    assert!(vfs::covers(&chars("/dev"), &chars("/dev/null")));
    assert!(!vfs::covers(&chars("/dev"), &chars("/device")));
    assert!(!vfs::covers(&chars("/dev"), &chars("/de")));
    assert!(vfs::covers(&chars("/"), &chars("/dev")));
    assert!(vfs::covers(&chars("/"), &chars("/dev/console")));
    assert!(!vfs::covers(&chars("/"), &chars("dev")));
    assert!(!vfs::covers(&chars("/"), &chars("")));
    assert!(vfs::covers(&chars("/"), &chars("/")));
    assert!(vfs::covers(&chars(""), &chars("/dev")));
}

#[test]
fn longest_mount_wins_and_the_latest_of_equals() {
    let mut m = Mounts::new();
    assert_eq!(vfs::longest_mount(&m, &chars("/a")), None);
    vfs::mount(&mut m, "/a", FileSystem::Dev(fs::devfs::DevFs));
    vfs::mount(&mut m, "/a/b", FileSystem::Proc(fs::procfs::ProcFs));
    vfs::mount(&mut m, "", FileSystem::Dev(fs::devfs::DevFs));
    assert_eq!(vfs::longest_mount(&m, &chars("/a/b/c")), Some((4, 1)));
    assert_eq!(vfs::longest_mount(&m, &chars("/a/c")), Some((2, 0)));
    assert_eq!(vfs::longest_mount(&m, &chars("/z")), Some((0, 2)));
    vfs::mount(&mut m, "/a/b", FileSystem::Dev(fs::devfs::DevFs));
    assert_eq!(vfs::longest_mount(&m, &chars("/a/b/c")), Some((4, 3)));
    assert!(matches!(vfs::resolve(&m, "/a/b/uptime"), Err(FsError::NotFound)));
    assert!(matches!(vfs::resolve(&m, "/a/b/zero"), Ok(Inode::Zero)));
    assert_eq!(m.table[1].fs.name(), "procfs");
    assert_eq!(m.table[0].fs.name(), "devfs");
}

#[test]
fn paths_resolve() {
    let (v, _) = boot();
    assert!(matches!(vfs::resolve(&v.mounts, "/dev/console"), Ok(Inode::Console)));
    assert!(matches!(vfs::resolve(&v.mounts, "//dev"), Err(FsError::NotFound)));
    assert!(matches!(vfs::resolve(&v.mounts, "/dev//null/"), Ok(Inode::Null)));
    assert!(matches!(vfs::resolve(&v.mounts, "/dev/kbd"), Ok(Inode::Kbd)));
    assert!(matches!(vfs::resolve(&v.mounts, "/dev/nope"), Err(FsError::NotFound)));
    assert!(matches!(vfs::resolve(&v.mounts, "/dev/null/x"), Err(FsError::NotFound)));
    assert!(matches!(vfs::resolve(&v.mounts, "dev/null"), Err(FsError::InvalidArg)));
    assert!(matches!(vfs::resolve(&v.mounts, ""), Err(FsError::InvalidArg)));
    assert!(matches!(vfs::resolve(&v.mounts, "/"), Err(FsError::NotFound)));
    assert_eq!(vfs::resolve(&v.mounts, "/dev").ok().unwrap().kind(), FileKind::Dir);
    assert_eq!(vfs::resolve(&v.mounts, "/proc/uptime").ok().unwrap().kind(), FileKind::File);
    assert_eq!(vfs::resolve(&v.mounts, "/dev/zero").ok().unwrap().kind(), FileKind::CharDev);
    assert_eq!(vfs::resolve(&v.mounts, "/initrd/etc").ok().unwrap().kind(), FileKind::Dir);
    assert_eq!(vfs::resolve(&v.mounts, "/initrd/empty").ok().unwrap().kind(), FileKind::File);
    assert!(vfs::resolve(&v.mounts, "/dev/console").ok().unwrap().sock_index().is_none());
}

#[test]
fn directories_are_listed() {
    let (v, _) = boot();
    assert_eq!(fs::list_dir(&v, "/dev").unwrap(), vec!["console", "null", "zero", "kbd"]);
    assert_eq!(fs::list_dir(&v, "/proc").unwrap(), vec!["meminfo", "uptime"]);
    assert_eq!(fs::list_dir(&v, "/initrd").unwrap(), vec!["etc", "motd.txt", "empty"]);
    assert_eq!(fs::list_dir(&v, "/initrd/etc").unwrap(), vec!["conf"]);
    assert_eq!(fs::list_dir(&v, "/initrd/motd.txt"), Err(FsError::NotDir));
    assert_eq!(fs::list_dir(&v, "/proc/uptime"), Err(FsError::NotDir));
    assert_eq!(fs::list_dir(&v, "/dev/null"), Err(FsError::NotDir));
    assert_eq!(fs::list_dir(&v, "/nope"), Err(FsError::NotFound));
    assert_eq!(fs::list_dir(&v, "nope"), Err(FsError::InvalidArg));
}

#[test]
fn boot_opens_three_consoles() {
    let (mut v, mut s) = boot();
    assert_eq!(fs::write(&mut v, &mut s, 1, b"out"), Ok(3));
    assert_eq!(fs::write(&mut v, &mut s, 2, b"err"), Ok(3));
    assert_eq!(s.serial.take_pending(), b"outerr".to_vec());
    let mut buf = [1u8; 4];
    assert_eq!(fs::read(&mut v, &mut s, 0, &mut buf), Ok(0));
    assert_eq!(buf, [1; 4]);
    assert_eq!(fs::open(&mut v, "/dev/null"), Ok(3));
}

#[test]
fn boot_on_filled_tables_adds() {
    let mut v = Vfs::new();
    vfs::mount(&mut v.mounts, "/dev", FileSystem::Proc(fs::procfs::ProcFs));
    assert_eq!(fs::open(&mut v, "/dev/uptime"), Ok(0));
    assert_eq!(fs::open(&mut v, "/dev/uptime"), Ok(1));
    assert_eq!(fs::open(&mut v, "/dev/uptime"), Ok(2));
    fs::close(&mut v, 1).unwrap();
    fs::init(&mut v, &tarball());
    assert_eq!(v.mounts.table.len(), 4);
    assert_eq!(v.fds.len(), 5);
    let mut s = system();
    for fd in [1, 3, 4] {
        assert_eq!(fs::write(&mut v, &mut s, fd, b"x"), Ok(1));
    }
    assert_eq!(s.serial.take_pending(), b"xxx".to_vec());
    assert_eq!(fs::write(&mut v, &mut s, 0, b"x"), Err(FsError::PermissionDenied));
}

#[test]
fn boot_keeps_a_mount_at_the_console() {
    let mut v = Vfs::new();
    vfs::mount(&mut v.mounts, "/dev/console", FileSystem::Dev(fs::devfs::DevFs));
    fs::init(&mut v, &[]);
    let mut s = system();
    assert_eq!(fs::write(&mut v, &mut s, 1, b"x"), Err(FsError::PermissionDenied));
}

#[test]
fn files_are_read_in_order() {
    let (mut v, mut s) = boot();
    let fd = fs::open(&mut v, "/initrd/motd.txt").unwrap();
    let mut buf = [0u8; 4];
    assert_eq!(fs::read(&mut v, &mut s, fd, &mut buf), Ok(4));
    assert_eq!(&buf, b"Welc");
    assert_eq!(fs::read(&mut v, &mut s, fd, &mut buf), Ok(4));
    assert_eq!(&buf, b"ome!");
    assert_eq!(fs::read(&mut v, &mut s, fd, &mut buf), Ok(1));
    assert_eq!(&buf, b"\nme!");
    assert_eq!(fs::read(&mut v, &mut s, fd, &mut buf), Ok(0));
    assert_eq!(fs::write(&mut v, &mut s, fd, b"x"), Err(FsError::PermissionDenied));
    assert_eq!(read_all(&mut v, &mut s, "/initrd/etc/conf/net"), vec![b'n'; 700]);
    assert_eq!(fs::fs_cat(&mut v, &mut s, "/initrd/etc/conf/net", 256).unwrap().len(), 256);
    assert_eq!(fs::fs_cat(&mut v, &mut s, "/nope", 256), Err(FsError::NotFound));
}

#[test]
fn devices_behave() {
    let (mut v, mut s) = boot();
    let zero = fs::open(&mut v, "/dev/zero").unwrap();
    let null = fs::open(&mut v, "/dev/null").unwrap();
    let kbd = fs::open(&mut v, "/dev/kbd").unwrap();
    let dir = fs::open(&mut v, "/dev").unwrap();
    let mut buf = [7u8; 3];
    assert_eq!(fs::read(&mut v, &mut s, null, &mut buf), Ok(0));
    assert_eq!(fs::read(&mut v, &mut s, zero, &mut buf), Ok(3));
    assert_eq!(buf, [0; 3]);
    assert_eq!(fs::write(&mut v, &mut s, zero, b"abc"), Ok(3));
    assert_eq!(fs::write(&mut v, &mut s, null, b"abcd"), Ok(4));
    assert_eq!(fs::read(&mut v, &mut s, dir, &mut buf), Err(FsError::PermissionDenied));
    assert_eq!(fs::read(&mut v, &mut s, kbd, &mut buf), Ok(0));
    keyboard::inject_str(&mut s.keyboard, "hello");
    assert_eq!(fs::read(&mut v, &mut s, kbd, &mut buf), Ok(3));
    assert_eq!(&buf, b"hel");
    assert_eq!(fs::read(&mut v, &mut s, kbd, &mut buf), Ok(2));
    assert_eq!(&buf, b"lol");
    assert_eq!(fs::write(&mut v, &mut s, kbd, b"x"), Err(FsError::PermissionDenied));
}

#[test]
fn proc_files_are_generated() {
    let (mut v, mut s) = boot();
    s.frames.mark_free_range(0..0x5000);
    s.timer.ticks = 1234;
    assert_eq!(
        read_all(&mut v, &mut s, "/proc/meminfo"),
        b"MemTotal: 1024 KiB\nMemUsed: 2 KiB\nMemFree: 1022 KiB\nFreeFrames: 5\n".to_vec()
    );
    assert_eq!(read_all(&mut v, &mut s, "/proc/uptime"), b"12 seconds since boot\n".to_vec());
    assert_eq!(fs::procfs::uptime(&s), "12 seconds since boot\n");
    assert_eq!(fs::procfs::meminfo(&s).len(), 66);
    let fd = fs::open(&mut v, "/proc/uptime").unwrap();
    let mut buf = [0u8; 3];
    assert_eq!(fs::read(&mut v, &mut s, fd, &mut buf), Ok(3));
    assert_eq!(fs::read(&mut v, &mut s, fd, &mut buf), Ok(3));
    assert_eq!(&buf, b"sec");
    assert_eq!(fs::write(&mut v, &mut s, fd, b"x"), Err(FsError::PermissionDenied));
}

#[test]
fn descriptors_are_reused_and_bounded() {
    let (mut v, mut s) = boot();
    let mut last = 0;
    while let Ok(fd) = fs::open(&mut v, "/dev/null") {
        last = fd;
    }
    assert_eq!(last, 63);
    assert!(!fs::has_free_fd(&v));
    assert_eq!(fs::open(&mut v, "/dev/null"), Err(FsError::NoSpace));
    assert_eq!(fs::open(&mut v, "/nope"), Err(FsError::NotFound));
    assert_eq!(fs::close(&mut v, 10), Ok(()));
    assert_eq!(fs::close(&mut v, 10), Err(FsError::InvalidArg));
    assert_eq!(fs::close(&mut v, 64), Err(FsError::InvalidArg));
    assert!(fs::has_free_fd(&v));
    let mut buf = [0u8; 1];
    assert_eq!(fs::read(&mut v, &mut s, 10, &mut buf), Err(FsError::InvalidArg));
    assert_eq!(fs::write(&mut v, &mut s, 99, &buf), Err(FsError::InvalidArg));
    assert_eq!(fs::open(&mut v, "/dev/zero"), Ok(10));
}

#[test]
fn network_is_a_file() {
    let (mut v, mut s) = boot();
    let i = socket::socket(&mut s.net.sockets, ip::PROTO_UDP);
    let fd = fs::install_inode(&mut v, socket::inode(i)).unwrap();
    assert_eq!(fs::sock_index(&v, fd), Some(i));
    assert_eq!(fs::sock_index(&v, 0), None);
    assert_eq!(fs::sock_index(&v, 60), None);
    socket::bind(&mut s.net.sockets, i, 5555);
    let mut buf = [0u8; 16];
    assert_eq!(fs::read(&mut v, &mut s, fd, &mut buf), Ok(0));
    socket::deliver(&mut s.net, 5555, GATEWAY, 4242, b"ping-pong");
    assert_eq!(fs::read(&mut v, &mut s, fd, &mut buf), Ok(9));
    assert_eq!(&buf[..9], b"ping-pong");
    // Not connected, then connected but without a card.
    assert_eq!(fs::write(&mut v, &mut s, fd, b"x"), Err(FsError::InvalidArg));
    socket::connect(&mut s.net.sockets, i, GATEWAY, 7);
    assert_eq!(fs::write(&mut v, &mut s, fd, b"x"), Err(FsError::Io));
    socket::close(&mut s.net.sockets, i);
    assert_eq!(fs::write(&mut v, &mut s, fd, b"x"), Err(FsError::InvalidArg));
    assert_eq!(fs::read(&mut v, &mut s, fd, &mut buf), Ok(0));
}

#[test]
fn stack_self_test_reports() {
    let (mut v, mut s) = boot();
    let r = net::demo(&mut v, &mut s);
    assert_eq!(r.gateway, (Some(net::MacAddr(net::arp::DEMO_MAC)), 1));
    assert_eq!(r.route, net::MacAddr(net::arp::DEMO_MAC));
    assert_eq!(r.echo, (true, 0, true));
    assert_eq!(r.datagram.1, Some((14, GATEWAY, 7)));
    assert_eq!((r.sockets.socket, r.sockets.fd, r.sockets.read), (0, Ok(3), Some(Ok(9))));
    assert_eq!(&r.sockets.buf[..9], b"ping-pong");
    assert_eq!(fs::open(&mut v, "/dev/null"), Ok(3));
}

#[test]
fn error_codes() {
    let all = [
        (FsError::Io, -5),
        (FsError::NotFound, -2),
        (FsError::PermissionDenied, -13),
        (FsError::NotDir, -20),
        (FsError::IsDir, -21),
        (FsError::InvalidArg, -22),
        (FsError::NoSpace, -28),
    ];
    for (e, code) in all {
        assert_eq!(e.errno(), code);
    }
}
