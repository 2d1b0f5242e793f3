//! `int 0x80` system calls.
//!
//! Syscall ABI:
//!   * call:   `int 0x80` with `rax` = number, args in `rdi, rsi, rdx`
//!   * return: `rax` = result (negative = error)
//!
//! The machine copies the user memory that a call names in and out; see
//! [`user_memory`].
use vstd::prelude::*;
use vstd::utf8::{
    decode_utf8, encode_utf8, encode_utf8_decode_utf8, encode_utf8_valid_utf8, valid_utf8,
};
use crate::fs::vfs::{errno_of, resolved, FsError, FsResult, InodeView};
use crate::fs::{self, law_open_takes_lowest_free, FileView, Vfs, VfsView};
use crate::net::socket::{self, bound, connected, fresh, free_slot, open_socket, with_socket};
use crate::net::{sent_frame, StackView};
use crate::system::{System, SystemView};
use crate::text::{from_utf8, owned};

verus! {

/// System calls.
#[derive(Clone, Copy, PartialEq, Eq, Structural, Debug)]
pub enum SyscallNr {
    Write,
    Exit,
    Open,
    Read,
    Close,
    Socket,
    Bind,
    Connect,
}

impl SyscallNr {
    /// The number of the call.
    pub open spec fn number(self) -> u64 {
        match self {
            SyscallNr::Write => 1,
            SyscallNr::Exit => 2,
            SyscallNr::Open => 3,
            SyscallNr::Read => 4,
            SyscallNr::Close => 5,
            SyscallNr::Socket => 6,
            SyscallNr::Bind => 7,
            SyscallNr::Connect => 8,
        }
    }

    /// The call with this number, if there is one.
    pub fn from_number(n: u64) -> (r: Option<SyscallNr>)
        ensures
            match r {
                Some(c) => c.number() == n,
                None => forall|c: SyscallNr| #[trigger] c.number() != n,
            },
    {
        match n {
            1 => Some(SyscallNr::Write),
            2 => Some(SyscallNr::Exit),
            3 => Some(SyscallNr::Open),
            4 => Some(SyscallNr::Read),
            5 => Some(SyscallNr::Close),
            6 => Some(SyscallNr::Socket),
            7 => Some(SyscallNr::Bind),
            8 => Some(SyscallNr::Connect),
            _ => None,
        }
    }
}

/// The general-purpose registers saved by the `int 0x80` entry stub, by ascending
/// stack address.
#[derive(Clone, Copy, PartialEq, Eq, Structural, Debug, Default)]
pub struct SyscallFrame {
    pub rax: u64,
    pub rbx: u64,
    pub rcx: u64,
    pub rdx: u64,
    pub rsi: u64,
    pub rdi: u64,
    pub rbp: u64,
    pub r8: u64,
    pub r9: u64,
    pub r10: u64,
    pub r11: u64,
    pub r12: u64,
    pub r13: u64,
    pub r14: u64,
    pub r15: u64,
}

/// Bytes that one read or write moves at most.
pub const MAX_TRANSFER: u64 = 4096;

/// Bytes in which a path has to end.
pub const MAX_PATH: usize = 256;

/// The result register for an unknown call: -3.
pub const ENOSYS: u64 = 0xffff_ffff_ffff_fffd;

/// The user memory that a call needs.
#[derive(Clone, Copy, PartialEq, Eq, Structural, Debug)]
pub enum UserMemory {
    /// None.
    Nothing,
    /// `len` bytes from `addr` on.
    Bytes { addr: u64, len: u64 },
    /// The bytes from `addr` on up to a NUL, or `limit` of them if none comes
    /// before.
    Text { addr: u64, limit: usize },
}

/// How many bytes a read or write of `len` moves.
pub open spec fn transfer(len: u64) -> u64 {
    if len < MAX_TRANSFER {
        len
    } else {
        MAX_TRANSFER
    }
}

/// The user memory that a call with these registers needs.
pub open spec fn memory_of(f: SyscallFrame) -> UserMemory {
    if f.rax == SyscallNr::Write.number() || f.rax == SyscallNr::Read.number() {
        UserMemory::Bytes { addr: f.rsi, len: transfer(f.rdx) }
    } else if f.rax == SyscallNr::Open.number() {
        UserMemory::Text { addr: f.rdi, limit: MAX_PATH }
    } else {
        UserMemory::Nothing
    }
}

/// The user memory that a call with these registers needs.
pub fn user_memory(f: &SyscallFrame) -> (r: UserMemory)
    ensures
        r == memory_of(*f),
{
    let len: u64 = if f.rdx < MAX_TRANSFER {
        f.rdx
    } else {
        MAX_TRANSFER
    };
    match f.rax {
        1 => UserMemory::Bytes { addr: f.rsi, len },
        4 => UserMemory::Bytes { addr: f.rsi, len },
        3 => UserMemory::Text { addr: f.rdi, limit: MAX_PATH },
        _ => UserMemory::Nothing,
    }
}

/// Whether `user` is the memory that was asked for.
pub open spec fn supplied(m: UserMemory, user: Seq<u8>) -> bool {
    match m {
        UserMemory::Nothing => true,
        UserMemory::Bytes { len, .. } => user.len() == len,
        UserMemory::Text { limit, .. } => user.len() >= limit || exists|i: int|
            0 <= i < user.len() && user[i] == 0,
    }
}

/// Where the first NUL stands among the first `n` bytes from `i` on; `n` if there
/// is none.
pub open spec fn nul_from(user: Seq<u8>, i: int, n: int) -> int
    decreases n - i,
{
    if i >= n || user[i] == 0 {
        i
    } else {
        nul_from(user, i + 1, n)
    }
}

/// The text before the first NUL, if that comes within the limit and the bytes
/// are valid UTF-8.
pub open spec fn user_text(user: Seq<u8>) -> Option<Seq<char>> {
    let n = if user.len() < MAX_PATH {
        user.len() as int
    } else {
        MAX_PATH as int
    };
    let end = nul_from(user, 0, n);
    if end < n && valid_utf8(user.take(end)) {
        Some(decode_utf8(user.take(end)))
    } else {
        None
    }
}

/// Read a NUL-terminated, valid-UTF-8 string from user memory.
pub fn read_user_cstr(user: &[u8]) -> (r: Option<String>)
    ensures
        match r {
            Some(s) => user_text(user@) == Some(s@),
            None => user_text(user@) is None,
        },
{
    let n: usize = if user.len() < MAX_PATH {
        user.len()
    } else {
        MAX_PATH
    };
    let mut end: usize = 0;
    while end < n && user[end] != 0
        invariant
            end <= n <= user@.len(),
            nul_from(user@, 0, n as int) == nul_from(user@, end as int, n as int),
        decreases n - end,
    {
        end = end + 1;
    }
    if end == n {
        return None;
    }
    let bytes = vstd::slice::slice_subrange(user, 0, end);
    assert(bytes@ =~= user@.take(end as int));
    match from_utf8(bytes) {
        Ok(s) => Some(owned(s)),
        Err(_) => None,
    }
}

/// The result register for an error: its code as an unsigned word.
pub open spec fn error_word(e: FsError) -> u64 {
    (0x1_0000_0000_0000_0000 + errno_of(e)) as u64
}

fn errno_word(e: FsError) -> (r: u64)
    ensures
        r == error_word(e),
{
    match e {
        FsError::Io => 0xffff_ffff_ffff_fffb,
        FsError::NotFound => 0xffff_ffff_ffff_fffe,
        FsError::PermissionDenied => 0xffff_ffff_ffff_fff3,
        FsError::NotDir => 0xffff_ffff_ffff_ffec,
        FsError::IsDir => 0xffff_ffff_ffff_ffeb,
        FsError::InvalidArg => 0xffff_ffff_ffff_ffea,
        FsError::NoSpace => 0xffff_ffff_ffff_ffe4,
    }
}

/// The result register for a count or an error.
pub open spec fn result_word(r: FsResult<usize>) -> u64 {
    match r {
        Ok(n) => n as u64,
        Err(e) => error_word(e),
    }
}

fn count_word(r: FsResult<usize>) -> (w: u64)
    ensures
        w == result_word(r),
{
    match r {
        Ok(n) => n as u64,
        Err(e) => errno_word(e),
    }
}

/// A descriptor number as an index; one that is too large is the index of no
/// descriptor.
fn fd_index(fd: u64) -> (r: usize)
    ensures
        fd <= usize::MAX ==> r == fd,
        fd > usize::MAX ==> r == usize::MAX,
{
    if fd <= usize::MAX as u64 {
        fd as usize
    } else {
        usize::MAX
    }
}

/// The kernel state that system calls work on.
pub struct Kernel {
    pub vfs: Vfs,
    pub sys: System,
}

/// The state of a [`Kernel`].
#[verifier::ext_equal]
pub struct KernelView {
    pub vfs: VfsView,
    pub sys: SystemView,
}

impl View for Kernel {
    type V = KernelView;

    open spec fn view(&self) -> KernelView {
        KernelView { vfs: self.vfs@, sys: self.sys@ }
    }
}

impl KernelView {
    /// The descriptor table has at most as many slots as descriptors can be open.
    pub open spec fn wf(self) -> bool {
        self.vfs.fds.len() <= fs::MAX_FDS
    }

    /// The state with other sockets.
    pub open spec fn with_sockets(self, sockets: Seq<Option<socket::SocketView>>) -> KernelView {
        KernelView {
            sys: SystemView { net: StackView { sockets, ..self.sys.net }, ..self.sys },
            ..self
        }
    }

    /// The socket behind a descriptor, if it is one and is open.
    pub open spec fn socket_of(self, fd: int) -> Option<usize> {
        match self.vfs.file(fd) {
            Some(FileView { inode: InodeView::Socket(i), .. }) => if open_socket(
                self.sys.net.sockets,
                i as int,
            ) is Some {
                Some(i)
            } else {
                None
            },
            _ => None,
        }
    }

    /// What `open` returns and leaves.
    pub open spec fn sys_open(self, user: Seq<u8>) -> (u64, KernelView) {
        match user_text(user) {
            Some(path) => {
                let (r, vfs) = self.vfs.opened(resolved(self.vfs.mounts, path));
                (result_word(r), KernelView { vfs, ..self })
            },
            None => (error_word(FsError::InvalidArg), self),
        }
    }

    /// What `read` returns and leaves, and the user memory after it.
    pub open spec fn sys_read(self, fd: u64, user: Seq<u8>) -> (u64, KernelView, Seq<u8>) {
        let (r, vfs, sys, b) = self.vfs.read(self.sys, fd as int, user);
        (result_word(r), KernelView { vfs, sys }, b)
    }

    /// What `write` returns and leaves.
    pub open spec fn sys_write(self, fd: u64, user: Seq<u8>) -> (u64, KernelView) {
        let (r, vfs, sys) = self.vfs.write(self.sys, fd as int, user);
        (result_word(r), KernelView { vfs, sys })
    }

    /// What `close` returns and leaves.
    pub open spec fn sys_close(self, fd: u64) -> (u64, KernelView) {
        let (r, vfs) = self.vfs.closed(fd as int);
        (
            match r {
                Ok(_) => 0,
                Err(e) => error_word(e),
            },
            KernelView { vfs, ..self },
        )
    }

    /// What `socket` returns and leaves: the socket stays even if there is no
    /// descriptor for it.
    pub open spec fn sys_socket(self, proto: u64) -> (u64, KernelView) {
        let t = self.sys.net.sockets;
        let i = free_slot(t);
        let k = self.with_sockets(with_socket(t, i, fresh((proto % 256) as u8)));
        let (r, vfs) = k.vfs.opened(Ok(InodeView::Socket(i as usize)));
        (result_word(r), KernelView { vfs, ..k })
    }

    /// What `bind` returns and leaves.
    pub open spec fn sys_bind(self, fd: u64, port: u64) -> (u64, KernelView) {
        match self.socket_of(fd as int) {
            Some(i) => (
                0,
                self.with_sockets(
                    bound(self.sys.net.sockets, i as int, (port % 0x1_0000) as u16),
                ),
            ),
            None => (error_word(FsError::InvalidArg), self),
        }
    }

    /// What `connect` returns and leaves; the address is a number in host byte
    /// order.
    pub open spec fn sys_connect(self, fd: u64, ip: u64, port: u64) -> (u64, KernelView) {
        match self.socket_of(fd as int) {
            Some(i) => (
                0,
                self.with_sockets(
                    connected(
                        self.sys.net.sockets,
                        i as int,
                        ip_bytes(ip),
                        (port % 0x1_0000) as u16,
                    ),
                ),
            ),
            None => (error_word(FsError::InvalidArg), self),
        }
    }

    /// The result register, the state and the user memory after a call. A call
    /// that ends the program returns nothing.
    pub open spec fn called(self, f: SyscallFrame, user: Seq<u8>) -> (
        Option<u64>,
        KernelView,
        Seq<u8>,
    ) {
        if f.rax == SyscallNr::Write.number() {
            (Some(self.sys_write(f.rdi, user).0), self.sys_write(f.rdi, user).1, user)
        } else if f.rax == SyscallNr::Read.number() {
            (
                Some(self.sys_read(f.rdi, user).0),
                self.sys_read(f.rdi, user).1,
                self.sys_read(f.rdi, user).2,
            )
        } else if f.rax == SyscallNr::Open.number() {
            (Some(self.sys_open(user).0), self.sys_open(user).1, user)
        } else if f.rax == SyscallNr::Close.number() {
            (Some(self.sys_close(f.rdi).0), self.sys_close(f.rdi).1, user)
        } else if f.rax == SyscallNr::Socket.number() {
            (Some(self.sys_socket(f.rdi).0), self.sys_socket(f.rdi).1, user)
        } else if f.rax == SyscallNr::Bind.number() {
            (Some(self.sys_bind(f.rdi, f.rsi).0), self.sys_bind(f.rdi, f.rsi).1, user)
        } else if f.rax == SyscallNr::Connect.number() {
            (
                Some(self.sys_connect(f.rdi, f.rsi, f.rdx).0),
                self.sys_connect(f.rdi, f.rsi, f.rdx).1,
                user,
            )
        } else if f.rax == SyscallNr::Exit.number() {
            (None, self, user)
        } else {
            (Some(ENOSYS), self, user)
        }
    }
}

/// The four bytes of the low half of `ip`, most significant first.
pub open spec fn ip_bytes(ip: u64) -> [u8; 4] {
    [
        (ip / 0x100_0000 % 256) as u8,
        (ip / 0x1_0000 % 256) as u8,
        (ip / 256 % 256) as u8,
        (ip % 256) as u8,
    ]
}

/// `open(path)`: take the NUL-terminated path from user memory, then resolve.
pub fn sys_open(k: &mut Kernel, user: &[u8]) -> (r: u64)
    ensures
        (r, final(k)@) == old(k)@.sys_open(user@),
{
    match read_user_cstr(user) {
        Some(path) => count_word(fs::open(&mut k.vfs, path.as_str())),
        None => errno_word(FsError::InvalidArg),
    }
}

/// `read(fd, buf, len)`: fill the user buffer, return count or -errno.
pub fn sys_read(k: &mut Kernel, fd: u64, user: &mut [u8]) -> (r: u64)
    requires
        old(k)@.wf(),
    ensures
        (r, final(k)@, final(user)@) == old(k)@.sys_read(fd, old(user)@),
{
    count_word(fs::read(&mut k.vfs, &mut k.sys, fd_index(fd), user))
}

/// `write(fd, buf, len)`: hand the user buffer to the VFS. fd 1/2 are pre-wired
/// to `/dev/console`, so a plain console write and an opened-file write travel
/// the exact same path.
pub fn sys_write(k: &mut Kernel, fd: u64, user: &[u8]) -> (r: u64)
    requires
        old(k)@.wf(),
    ensures
        (r, final(k)@) == old(k)@.sys_write(fd, user@),
{
    count_word(fs::write(&mut k.vfs, &mut k.sys, fd_index(fd), user))
}

/// `close(fd)`.
pub fn sys_close(k: &mut Kernel, fd: u64) -> (r: u64)
    requires
        old(k)@.wf(),
    ensures
        (r, final(k)@) == old(k)@.sys_close(fd),
{
    match fs::close(&mut k.vfs, fd_index(fd)) {
        Ok(_) => 0,
        Err(e) => errno_word(e),
    }
}

/// `socket(proto)`: allocate a socket, wrap it as a VFS inode, return its fd.
/// "A network endpoint is a file": `read`/`write` on the fd move datagrams.
pub fn sys_socket(k: &mut Kernel, proto: u64) -> (r: u64)
    ensures
        (r, final(k)@) == old(k)@.sys_socket(proto),
{
    let idx: usize = socket::socket(&mut k.sys.net.sockets, (proto % 256) as u8);
    count_word(fs::install_inode(&mut k.vfs, socket::inode(idx)))
}

/// `bind(fd, port)`: attach a local UDP port to the socket behind `fd`.
pub fn sys_bind(k: &mut Kernel, fd: u64, port: u64) -> (r: u64)
    requires
        old(k)@.wf(),
    ensures
        (r, final(k)@) == old(k)@.sys_bind(fd, port),
{
    match fs::sock_index(&k.vfs, fd_index(fd)) {
        Some(idx) => {
            if socket::bind(&mut k.sys.net.sockets, idx, (port % 0x1_0000) as u16) {
                0
            } else {
                errno_word(FsError::InvalidArg)
            }
        },
        None => errno_word(FsError::InvalidArg),
    }
}

/// `connect(fd, dst_ip, port)`: set the default peer (dst ip in host byte order).
pub fn sys_connect(k: &mut Kernel, fd: u64, ip: u64, port: u64) -> (r: u64)
    requires
        old(k)@.wf(),
    ensures
        (r, final(k)@) == old(k)@.sys_connect(fd, ip, port),
{
    let addr = [
        (ip / 0x100_0000 % 256) as u8,
        (ip / 0x1_0000 % 256) as u8,
        (ip / 256 % 256) as u8,
        (ip % 256) as u8,
    ];
    match fs::sock_index(&k.vfs, fd_index(fd)) {
        Some(idx) => {
            if socket::connect(&mut k.sys.net.sockets, idx, addr, (port % 0x1_0000) as u16) {
                0
            } else {
                errno_word(FsError::InvalidArg)
            }
        },
        None => errno_word(FsError::InvalidArg),
    }
}

/// Dispatch one syscall from ring 3, with the user memory that it needs. The
/// result goes to `rax`; a call that ends the program gives its exit code instead.
pub fn syscall_dispatch(k: &mut Kernel, f: &mut SyscallFrame, user: &mut [u8]) -> (exit: Option<u64>)
    requires
        old(k)@.wf(),
        supplied(memory_of(*old(f)), old(user)@),
    ensures
        final(k)@ == old(k)@.called(*old(f), old(user)@).1,
        final(user)@ == old(k)@.called(*old(f), old(user)@).2,
        match old(k)@.called(*old(f), old(user)@).0 {
            Some(rax) => exit is None && *final(f) == (SyscallFrame { rax, ..*old(f) }),
            None => exit == Some(old(f).rdi) && *final(f) == *old(f),
        },
{
    match SyscallNr::from_number(f.rax) {
        Some(SyscallNr::Write) => f.rax = sys_write(k, f.rdi, user),
        Some(SyscallNr::Read) => f.rax = sys_read(k, f.rdi, user),
        Some(SyscallNr::Open) => f.rax = sys_open(k, user),
        Some(SyscallNr::Close) => f.rax = sys_close(k, f.rdi),
        Some(SyscallNr::Socket) => f.rax = sys_socket(k, f.rdi),
        Some(SyscallNr::Bind) => f.rax = sys_bind(k, f.rdi, f.rsi),
        Some(SyscallNr::Connect) => f.rax = sys_connect(k, f.rdi, f.rsi, f.rdx),
        Some(SyscallNr::Exit) => {
            return Some(f.rdi);
        },
        None => f.rax = ENOSYS,
    }
    None
}

/// No call lets the descriptor table grow beyond its bound.
pub proof fn law_calls_keep_table_bounded(k: KernelView, f: SyscallFrame, user: Seq<u8>)
    requires
        k.wf(),
    ensures
        k.called(f, user).1.wf(),
{
    law_open_takes_lowest_free(k.vfs, InodeView::Socket(free_slot(k.sys.net.sockets) as usize), 0);
    match user_text(user) {
        Some(path) => {
            match resolved(k.vfs.mounts, path) {
                Ok(i) => {
                    law_open_takes_lowest_free(k.vfs, i, 0);
                },
                Err(_) => {},
            }
        },
        None => {},
    }
}

/// A result that is an error is negative as a signed number, and is the error's
/// code; one that is a descriptor or a count of moved bytes is not.
pub proof fn law_errors_are_negative(r: FsResult<usize>)
    requires
        r is Ok ==> r->Ok_0 <= MAX_TRANSFER,
    ensures
        match r {
            Ok(n) => result_word(r) == n && result_word(r) < 0x8000_0000_0000_0000,
            Err(e) => {
                &&& result_word(r) >= 0x8000_0000_0000_0000
                &&& result_word(r) - 0x1_0000_0000_0000_0000 == errno_of(e)
                &&& errno_of(e) < 0
            },
        },
{
}

/// A call with an unknown number is refused and changes nothing.
pub proof fn law_unknown_call_is_refused(k: KernelView, f: SyscallFrame, user: Seq<u8>)
    requires
        f.rax == 0 || f.rax > 8,
    ensures
        k.called(f, user) == (Some(ENOSYS), k, user),
{
}

/// A write to a descriptor of the console sends exactly the user's bytes there,
/// behind what waits, and returns their number.
pub proof fn law_console_write(k: KernelView, fd: u64, user: Seq<u8>)
    requires
        k.vfs.file(fd as int) is Some,
        k.vfs.file(fd as int)->0.inode == InodeView::Console,
        user.len() <= MAX_TRANSFER,
    ensures
        k.sys_write(fd, user).0 == user.len(),
        k.sys_write(fd, user).1.sys == (SystemView { serial: k.sys.serial + user, ..k.sys }),
{
}

/// A descriptor that `socket` returned can be bound and connected: both succeed,
/// and they do so to a socket of the requested protocol that was not open before.
pub proof fn law_new_socket_can_be_bound(k: KernelView, proto: u64, port: u64, ip: u64, peer: u64)
    requires
        k.wf(),
        k.sys.net.sockets.len() <= usize::MAX,
        k.sys_socket(proto).0 < fs::MAX_FDS,
    ensures
        ({
            let fd = k.sys_socket(proto).0;
            let s = k.sys_socket(proto).1;
            let i = free_slot(k.sys.net.sockets);
            let b = s.sys_bind(fd, port).1;
            &&& open_socket(k.sys.net.sockets, i) is None
            &&& s.socket_of(fd as int) == Some(i as usize)
            &&& s.sys_bind(fd, port).0 == 0
            &&& open_socket(b.sys.net.sockets, i) == Some(
                socket::SocketView {
                    local_port: (port % 0x1_0000) as u16,
                    ..fresh((proto % 256) as u8)
                },
            )
            &&& b.sys_connect(fd, ip, peer).0 == 0
        }),
{
    let t = k.sys.net.sockets;
    socket::lemma_slot_exists(t, 0);
    let i = free_slot(t);
    assert(socket::first_free(t, i));
    law_open_takes_lowest_free(k.vfs, InodeView::Socket(i as usize), 0);
    let s = k.sys_socket(proto).1;
    let fd = k.sys_socket(proto).0;
    assert(s.vfs.file(fd as int) == Some(FileView { inode: InodeView::Socket(i as usize), offset: 0 }));
}

/// The calls by their numbers, with their arguments in `rdi`, `rsi` and `rdx`.
pub proof fn law_calls_by_number(k: KernelView, f: SyscallFrame, user: Seq<u8>)
    ensures
        f.rax == 1 ==> k.called(f, user) == (
            Some(k.sys_write(f.rdi, user).0),
            k.sys_write(f.rdi, user).1,
            user,
        ),
        f.rax == 2 ==> k.called(f, user) == (None::<u64>, k, user),
        f.rax == 3 ==> k.called(f, user) == (Some(k.sys_open(user).0), k.sys_open(user).1, user),
        f.rax == 4 ==> k.called(f, user) == (
            Some(k.sys_read(f.rdi, user).0),
            k.sys_read(f.rdi, user).1,
            k.sys_read(f.rdi, user).2,
        ),
        f.rax == 5 ==> k.called(f, user) == (Some(k.sys_close(f.rdi).0), k.sys_close(f.rdi).1, user),
        f.rax == 6 ==> k.called(f, user) == (
            Some(k.sys_socket(f.rdi).0),
            k.sys_socket(f.rdi).1,
            user,
        ),
        f.rax == 7 ==> k.called(f, user) == (
            Some(k.sys_bind(f.rdi, f.rsi).0),
            k.sys_bind(f.rdi, f.rsi).1,
            user,
        ),
        f.rax == 8 ==> k.called(f, user) == (
            Some(k.sys_connect(f.rdi, f.rsi, f.rdx).0),
            k.sys_connect(f.rdi, f.rsi, f.rdx).1,
            user,
        ),
        f.rax == 0 || f.rax > 8 ==> k.called(f, user) == (
            Some((0x1_0000_0000_0000_0000 - 3) as u64),
            k,
            user,
        ),
{
}

/// What a call reads of the caller's memory: reading and writing take at most 4096
/// bytes at `rsi`, and never more than `rdx`; opening takes a text of at most 256
/// bytes at `rdi`; the other calls take nothing.
pub proof fn law_memory_of_calls(f: SyscallFrame)
    ensures
        f.rax == 1 || f.rax == 4 ==> match memory_of(f) {
            UserMemory::Bytes { addr, len } => addr == f.rsi && len <= f.rdx && len <= 4096 && (len
                == f.rdx || len == 4096),
            _ => false,
        },
        f.rax == 3 ==> memory_of(f) == (UserMemory::Text { addr: f.rdi, limit: 256 }),
        f.rax != 1 && f.rax != 3 && f.rax != 4 ==> memory_of(f) is Nothing,
{
}

proof fn lemma_nul_from(user: Seq<u8>, i: int, n: int, end: int)
    requires
        0 <= i <= end <= n,
        forall|j: int| i <= j < end ==> #[trigger] user[j] != 0,
        end == n || user[end] == 0,
    ensures
        nul_from(user, i, n) == end,
    decreases end - i,
{
    if i < end {
        assert(user[i] != 0);
        lemma_nul_from(user, i + 1, n, end);
    }
}

/// A text that the caller ends with a NUL is read back whole, whatever follows, if its
/// bytes and the NUL fit in 256; one that is longer is refused.
pub proof fn law_user_text_round_trip(text: Seq<char>, rest: Seq<u8>)
    requires
        forall|i: int| 0 <= i < encode_utf8(text).len() ==> #[trigger] encode_utf8(text)[i] != 0,
    ensures
        encode_utf8(text).len() <= 255 ==> user_text(encode_utf8(text).push(0) + rest) == Some(text),
        encode_utf8(text).len() >= 256 ==> user_text(encode_utf8(text) + rest) is None,
{
    let b = encode_utf8(text);
    encode_utf8_valid_utf8(text);
    encode_utf8_decode_utf8(text);
    if b.len() <= 255 {
        let user = b.push(0) + rest;
        let n = if user.len() < 256 {
            user.len() as int
        } else {
            256int
        };
        assert(forall|j: int| 0 <= j < b.len() ==> #[trigger] user[j] == b[j]);
        lemma_nul_from(user, 0, n, b.len() as int);
        assert(user.take(b.len() as int) =~= b);
    } else {
        let user = b + rest;
        assert(forall|j: int| 0 <= j < 256 ==> #[trigger] user[j] == b[j]);
        lemma_nul_from(user, 0, 256, 256);
    }
}

/// What the errors are as words: the negative codes of the usual numbers.
pub proof fn law_error_words()
    ensures
        error_word(FsError::NotFound) + 2 == 0x1_0000_0000_0000_0000,
        error_word(FsError::Io) + 5 == 0x1_0000_0000_0000_0000,
        error_word(FsError::PermissionDenied) + 13 == 0x1_0000_0000_0000_0000,
        error_word(FsError::NotDir) + 20 == 0x1_0000_0000_0000_0000,
        error_word(FsError::IsDir) + 21 == 0x1_0000_0000_0000_0000,
        error_word(FsError::InvalidArg) + 22 == 0x1_0000_0000_0000_0000,
        error_word(FsError::NoSpace) + 28 == 0x1_0000_0000_0000_0000,
{
}

/// Connecting a descriptor of an open socket succeeds, and the socket's peer then has
/// the address whose four bytes, the first weighing most, make up the low 32 bits of
/// the argument, and the port that the low sixteen bits of the other give. Nothing
/// else changes. A descriptor of no open socket is refused with nothing changed.
pub proof fn law_connect_sets_the_peer(k: KernelView, fd: u64, ip: u64, port: u64, j: int)
    ensures
        k.socket_of(fd as int) is None ==> k.sys_connect(fd, ip, port) == (
            (0x1_0000_0000_0000_0000 - 22) as u64,
            k,
        ),
        k.socket_of(fd as int) is Some ==> {
            let i = k.socket_of(fd as int)->0 as int;
            let (r, after) = k.sys_connect(fd, ip, port);
            let x = open_socket(k.sys.net.sockets, i)->0;
            let y = open_socket(after.sys.net.sockets, i);
            &&& r == 0
            &&& y is Some
            &&& y->0.peer is Some
            &&& ({
                let (a, p) = y->0.peer->0;
                &&& a[0] * 0x100_0000 + a[1] * 0x1_0000 + a[2] * 0x100 + a[3] == ip % 0x1_0000_0000
                &&& p == port % 0x1_0000
            })
            &&& y->0.proto == x.proto && y->0.local_port == x.local_port && y->0.rx == x.rx
            &&& j != i ==> open_socket(after.sys.net.sockets, j) == open_socket(
                k.sys.net.sockets,
                j,
            )
            &&& after.vfs == k.vfs
            &&& after.sys.net.nic == k.sys.net.nic
        },
{
    lemma_address_bytes(ip);
    if k.socket_of(fd as int) is Some {
        let t = k.sys.net.sockets;
        let i = k.socket_of(fd as int)->0 as int;
        socket::law_bind_and_connect_set_one_field(
            t,
            i,
            (port % 0x1_0000) as u16,
            ip_bytes(ip),
            j,
        );
    }
}

/// The bytes of an address weigh what the low 32 bits of the number do.
proof fn lemma_address_bytes(ip: u64)
    ensures
        ({
            let a = ip_bytes(ip);
            a[0] * 0x100_0000 + a[1] * 0x1_0000 + a[2] * 0x100 + a[3] == ip % 0x1_0000_0000
        }),
{
    let a = ip_bytes(ip);
    let n = ip as int;
    assert(a[0] == n / 0x100_0000 % 256);
    assert(a[1] == n / 0x1_0000 % 256);
    assert(a[2] == n / 256 % 256);
    assert(a[3] == n % 256);
    let h = n / 256;
    let g = h / 256;
    assert(n / 0x1_0000 == g);
    assert(n / 0x100_0000 == g / 256);
    assert(n % 0x1_0000_0000 == (g / 256 % 256) * 0x100_0000 + (g % 256) * 0x1_0000 + (h % 256) * 256
        + n % 256);
}

/// Binding a descriptor of an open socket succeeds, and the socket's port is then the
/// one that the low sixteen bits of the argument give. Nothing else changes.
pub proof fn law_bind_sets_the_port(k: KernelView, fd: u64, port: u64, j: int)
    ensures
        k.socket_of(fd as int) is None ==> k.sys_bind(fd, port) == (
            (0x1_0000_0000_0000_0000 - 22) as u64,
            k,
        ),
        k.socket_of(fd as int) is Some ==> {
            let i = k.socket_of(fd as int)->0 as int;
            let (r, after) = k.sys_bind(fd, port);
            let x = open_socket(k.sys.net.sockets, i)->0;
            let y = open_socket(after.sys.net.sockets, i);
            &&& r == 0
            &&& y is Some
            &&& y->0.local_port == port % 0x1_0000
            &&& y->0.proto == x.proto && y->0.peer == x.peer && y->0.rx == x.rx
            &&& j != i ==> open_socket(after.sys.net.sockets, j) == open_socket(
                k.sys.net.sockets,
                j,
            )
            &&& after.vfs == k.vfs
        },
{
}

/// A new socket has as protocol the low eight bits of the argument.
pub proof fn law_socket_has_its_protocol(k: KernelView, proto: u64)
    ensures
        ({
            let after = k.sys_socket(proto).1;
            let i = free_slot(k.sys.net.sockets);
            let y = open_socket(after.sys.net.sockets, i);
            &&& open_socket(k.sys.net.sockets, i) is None
            &&& y is Some
            &&& y->0.proto == proto % 256
            &&& y->0.local_port == 0
            &&& y->0.peer is None
        }),
{
    socket::lemma_slot_exists(k.sys.net.sockets, 0);
    assert(socket::first_free(k.sys.net.sockets, free_slot(k.sys.net.sockets)));
}

/// Once a UDP socket is connected, what is written to its descriptor leaves as one
/// datagram whose destination is the address and port of the call.
pub proof fn law_connected_write_reaches_the_peer(
    k: KernelView,
    fd: u64,
    ip: u64,
    port: u64,
    user: Seq<u8>,
)
    requires
        k.socket_of(fd as int) is Some,
        open_socket(k.sys.net.sockets, k.socket_of(fd as int)->0 as int)->0.proto == 17,
        k.sys.net.nic is Some,
        user.len() <= MAX_TRANSFER,
    ensures
        ({
            let c = k.sys_connect(fd, ip, port).1;
            let (r, after) = c.sys_write(fd, user);
            let f = sent_frame(c.sys.net.nic->0, after.sys.net.nic->0);
            &&& r == user.len()
            &&& f[30] * 0x100_0000 + f[31] * 0x1_0000 + f[32] * 0x100 + f[33] == ip % 0x1_0000_0000
            &&& f[36] * 256 + f[37] == port % 0x1_0000
            &&& f.skip(42) == user
        }),
{
    let i = k.socket_of(fd as int)->0 as int;
    let c = k.sys_connect(fd, ip, port).1;
    let a = ip_bytes(ip);
    law_connect_sets_the_peer(k, fd, ip, port, i);
    assert(open_socket(c.sys.net.sockets, i)->0.peer == Some((a, (port % 0x1_0000) as u16)));
    socket::law_write_goes_to_the_peer(c.sys.net, i, user);
    let f = sent_frame(c.sys.net.nic->0, c.sys_write(fd, user).1.sys.net.nic->0);
    assert(f.subrange(30, 34) == a@);
    assert(f.subrange(30, 34)[0] == f[30] && f.subrange(30, 34)[1] == f[31] && f.subrange(30, 34)[2]
        == f[32] && f.subrange(30, 34)[3] == f[33]);
}

/// Opening a stored file by its path and reading it gives its contents: the path is
/// what stands before the NUL, the descriptor is the lowest that is free, and a read
/// returns as many bytes as there are or fit.
pub proof fn law_open_then_read(
    k: KernelView,
    path: Seq<char>,
    rest: Seq<u8>,
    t: crate::fs::initrd::Tree,
    user: Seq<u8>,
)
    requires
        k.wf(),
        encode_utf8(path).len() <= 255,
        forall|i: int| 0 <= i < encode_utf8(path).len() ==> #[trigger] encode_utf8(path)[i] != 0,
        resolved(k.vfs.mounts, path) == Ok::<InodeView, FsError>(InodeView::Node(t)),
        exists|j: int| 0 <= j < 64 && #[trigger] k.vfs.file(j) is None,
        t.data.len() <= u64::MAX,
        user.len() <= MAX_TRANSFER,
    ensures
        ({
            let (fd, o) = k.sys_open(encode_utf8(path).push(0) + rest);
            let (n, after, b) = o.sys_read(fd, user);
            &&& fd < 64
            &&& k.vfs.file(fd as int) is None
            &&& forall|j: int| 0 <= j < fd ==> (#[trigger] k.vfs.file(j)) is Some
            &&& n == if user.len() < t.data.len() {
                user.len()
            } else {
                t.data.len()
            }
            &&& b.take(n as int) == t.data.take(n as int)
            &&& b.skip(n as int) == user.skip(n as int)
            &&& after.sys == k.sys
            &&& after.sys_close(fd).0 == 0
            &&& after.sys_close(fd).1.vfs.file(fd as int) is None
        }),
{
    let (fd, o) = k.sys_open(encode_utf8(path).push(0) + rest);
    law_user_text_round_trip(path, rest);
    law_open_takes_lowest_free(k.vfs, InodeView::Node(t), 0);
    let j = choose|j: int| 0 <= j < 64 && #[trigger] k.vfs.file(j) is None;
    assert(k.vfs.file(j) is None);
    fs::law_reads_are_consecutive(o.vfs, k.sys, fd as int, user);
    let (n, after, b) = o.sys_read(fd, user);
    if t.data.len() > 0 {
        assert(t.data.subrange(0, n as int) =~= t.data.take(n as int));
    } else {
        assert(b.take(0) =~= t.data.take(0));
    }
}

/// Closing answers zero for an open descriptor, which is free then, and the code of an
/// invalid argument for one that is not open.
pub proof fn law_close_answers(k: KernelView, fd: u64, other: int)
    ensures
        k.vfs.file(fd as int) is Some ==> k.sys_close(fd).0 == 0 && k.sys_close(fd).1.vfs.file(
            fd as int,
        ) is None,
        k.vfs.file(fd as int) is None ==> k.sys_close(fd).0 == 0x1_0000_0000_0000_0000 - 22
            && k.sys_close(fd).1 == k,
        other != fd ==> k.sys_close(fd).1.vfs.file(other) == k.vfs.file(other),
        k.sys_close(fd).1.sys == k.sys,
{
}

/// Which descriptors are sockets: those of an inode of an open socket.
pub proof fn law_socket_descriptors(k: KernelView, fd: int, i: usize)
    ensures
        k.socket_of(fd) == Some(i) <==> {
            &&& k.vfs.file(fd) is Some
            &&& k.vfs.file(fd)->0.inode == InodeView::Socket(i)
            &&& i < k.sys.net.sockets.len()
            &&& k.sys.net.sockets[i as int] is Some
        },
{
}

} // verus!
