//! Virtual filesystem entry point.
//!
//! Wires the concrete filesystems into the mount table and provides the small
//! file-descriptor layer the syscalls sit on top of:
//!   * [`open`] / [`close`]  - allocate a descriptor over a resolved inode
//!   * [`read`] / [`write`]  - move bytes and advance the descriptor offset
//!   * [`list_dir`]          - directory enumeration
//!
//! Permissions are expressed through the inodes themselves: a node that cannot
//! be read or written says so, and no separate permission bits are needed.
use vstd::prelude::*;

pub mod devfs;
pub mod initrd;
pub mod procfs;
pub mod vfs;

use crate::bytes::{fitting, overlaid};
use crate::net::socket::{delivered, law_delivery_is_received, wants};
use crate::system::{System, SystemView};
use devfs::DevFs;
use initrd::{dir_tree, entries_from, filled, found, Initrd};
use procfs::ProcFs;
use vfs::{
    mount, names_result, resolve, resolved, FileSystem, FsError, FsResult, Inode,
    InodeView, MountView, Mounts,
};

verus! {

/// Descriptors that can be open at once.
pub const MAX_FDS: usize = 64;

/// An open file: an inode plus a per-open read/write cursor.
pub struct File {
    pub inode: Inode,
    pub offset: u64,
}

/// What a [`File`] is.
pub struct FileView {
    pub inode: InodeView,
    pub offset: u64,
}

impl View for File {
    type V = FileView;

    open spec fn view(&self) -> FileView {
        FileView { inode: self.inode@, offset: self.offset }
    }
}

/// The mount table and the descriptor table. A single user program is active at
/// a time, so one table stands in for a table per task.
pub struct Vfs {
    pub mounts: Mounts,
    pub fds: Vec<Option<File>>,
}

/// The state of a [`Vfs`].
#[verifier::ext_equal]
pub struct VfsView {
    pub mounts: Seq<MountView>,
    pub fds: Seq<Option<FileView>>,
}

/// What a descriptor slot holds.
pub open spec fn slot_file(f: Option<File>) -> Option<FileView> {
    match f {
        Some(f) => Some(f@),
        None => None,
    }
}

impl View for Vfs {
    type V = VfsView;

    open spec fn view(&self) -> VfsView {
        VfsView {
            mounts: self.mounts@,
            fds: self.fds@.map_values(|f: Option<File>| slot_file(f)),
        }
    }
}

/// The first free descriptor from `i` on, or the one behind the end.
pub open spec fn free_fd(fds: Seq<Option<FileView>>, i: int) -> int
    decreases fds.len() - i,
{
    if i >= fds.len() || fds[i] is None {
        i
    } else {
        free_fd(fds, i + 1)
    }
}

/// The offset behind `n` bytes from `offset` on, modulo 2^64.
pub open spec fn advanced(offset: u64, n: usize) -> u64 {
    ((offset + n) % 0x1_0000_0000_0000_0000) as u64
}

impl VfsView {
    /// The file behind a descriptor, if it is open.
    pub open spec fn file(self, fd: int) -> Option<FileView> {
        if 0 <= fd < self.fds.len() {
            self.fds[fd]
        } else {
            None
        }
    }

    /// The descriptor that a new file gets, and the tables with it.
    pub open spec fn installed(self, f: FileView) -> (Option<usize>, VfsView) {
        let i = free_fd(self.fds, 0);
        if i < self.fds.len() {
            (Some(i as usize), VfsView { fds: self.fds.update(i, Some(f)), ..self })
        } else if i < MAX_FDS {
            (Some(i as usize), VfsView { fds: self.fds.push(Some(f)), ..self })
        } else {
            (None, self)
        }
    }

    /// What opening an inode returns and leaves.
    pub open spec fn opened(self, inode: FsResult<InodeView>) -> (FsResult<usize>, VfsView) {
        match inode {
            Ok(inode) => match self.installed(FileView { inode, offset: 0 }) {
                (Some(fd), v) => (Ok(fd), v),
                (None, v) => (Err(FsError::NoSpace), v),
            },
            Err(e) => (Err(e), self),
        }
    }

    /// The tables once the offset of a descriptor was advanced by `n`.
    pub open spec fn moved(self, fd: int, n: usize) -> VfsView {
        let f = self.fds[fd]->0;
        VfsView {
            fds: self.fds.update(fd, Some(FileView { offset: advanced(f.offset, n), ..f })),
            ..self
        }
    }

    /// What reading a descriptor returns, and what it leaves in the tables, in
    /// the system and in the buffer.
    pub open spec fn read(self, s: SystemView, fd: int, buf: Seq<u8>) -> (
        FsResult<usize>,
        VfsView,
        SystemView,
        Seq<u8>,
    ) {
        match self.file(fd) {
            Some(f) => {
                let (r, t, b) = f.inode.read(s, f.offset, buf);
                match r {
                    Ok(n) => (Ok(n), self.moved(fd, n), t, b),
                    Err(e) => (Err(e), self, t, b),
                }
            },
            None => (Err(FsError::InvalidArg), self, s, buf),
        }
    }

    /// What writing a descriptor returns, and what it leaves in the tables and in
    /// the system.
    pub open spec fn write(self, s: SystemView, fd: int, data: Seq<u8>) -> (
        FsResult<usize>,
        VfsView,
        SystemView,
    ) {
        match self.file(fd) {
            Some(f) => {
                let (r, t) = f.inode.write(s, data);
                match r {
                    Ok(n) => (Ok(n), self.moved(fd, n), t),
                    Err(e) => (Err(e), self, t),
                }
            },
            None => (Err(FsError::InvalidArg), self, s),
        }
    }

    /// What closing a descriptor returns and leaves.
    pub open spec fn closed(self, fd: int) -> (FsResult<()>, VfsView) {
        match self.file(fd) {
            Some(_) => (Ok(()), VfsView { fds: self.fds.update(fd, None), ..self }),
            None => (Err(FsError::InvalidArg), self),
        }
    }
}

impl Vfs {
    /// Nothing mounted, nothing open.
    pub fn new() -> (r: Vfs)
        ensures
            r@ == (VfsView { mounts: seq![], fds: seq![] }),
    {
        let r = Vfs { mounts: Mounts::new(), fds: Vec::new() };
        assert(r@ =~= (VfsView { mounts: seq![], fds: seq![] }));
        r
    }
}

/// The mount table at boot, with the ramdisk in `tar`.
pub open spec fn boot_mounts(tar: Seq<u8>) -> Seq<MountView> {
    seq![
        MountView { prefix: "/dev"@, root: InodeView::DevDir },
        MountView { prefix: "/proc"@, root: InodeView::ProcDir },
        MountView {
            prefix: "/initrd"@,
            root: InodeView::Node(filled(dir_tree("/"@), entries_from(tar, 0))),
        },
    ]
}

/// The console, freshly opened.
pub open spec fn console_file() -> FileView {
    FileView { inode: InodeView::Console, offset: 0 }
}

/// How many of the slots are free.
pub open spec fn free_slots(fds: Seq<Option<FileView>>) -> nat
    decreases fds.len(),
{
    if fds.len() == 0 {
        0
    } else {
        free_slots(fds.drop_last()) + if fds.last() is None {
            1nat
        } else {
            0nat
        }
    }
}

/// How many more files can be opened.
pub open spec fn room(fds: Seq<Option<FileView>>) -> int {
    free_slots(fds) + if fds.len() < MAX_FDS {
        MAX_FDS - fds.len()
    } else {
        0
    }
}

proof fn lemma_free_slots(fds: Seq<Option<FileView>>, i: int, f: FileView)
    requires
        0 <= i < fds.len(),
        fds[i] is None,
    ensures
        free_slots(fds) == free_slots(fds.update(i, Some(f))) + 1,
    decreases fds.len(),
{
    let g = fds.update(i, Some(f));
    if i == fds.len() - 1 {
        assert(g.drop_last() =~= fds.drop_last());
    } else {
        assert(g.drop_last() =~= fds.drop_last().update(i, Some(f)));
        lemma_free_slots(fds.drop_last(), i, f);
    }
}

proof fn lemma_none_free(fds: Seq<Option<FileView>>)
    requires
        forall|i: int| 0 <= i < fds.len() ==> (#[trigger] fds[i]) is Some,
    ensures
        free_slots(fds) == 0,
    decreases fds.len(),
{
    if fds.len() > 0 {
        assert(fds[fds.len() - 1] is Some);
        assert forall|i: int| 0 <= i < fds.len() - 1 implies (#[trigger] fds.drop_last()[i]) is Some by {
            assert(fds.drop_last()[i] == fds[i]);
        }
        lemma_none_free(fds.drop_last());
    }
}

/// A file is given a descriptor exactly if there is room, and takes one place of it.
pub proof fn law_install_takes_room(v: VfsView, f: FileView)
    ensures
        v.installed(f).0 is Some <==> room(v.fds) > 0,
        v.installed(f).0 is Some ==> room(v.installed(f).1.fds) == room(v.fds) - 1,
{
    lemma_free_fd(v.fds, 0);
    let i = free_fd(v.fds, 0);
    if i < v.fds.len() {
        lemma_free_slots(v.fds, i, f);
    } else {
        lemma_none_free(v.fds);
        let g = v.fds.push(Some(f));
        assert(g.drop_last() =~= v.fds);
    }
}

/// The mount table after boot: what was mounted before, and the three filesystems.
pub open spec fn mounted(m: Seq<MountView>, tar: Seq<u8>) -> Seq<MountView> {
    m + boot_mounts(tar)
}

/// What `/dev/console` is after boot.
pub open spec fn console_of(m: Seq<MountView>, tar: Seq<u8>) -> InodeView {
    resolved(mounted(m, tar), "/dev/console"@)->Ok_0
}

/// The tables after boot: the filesystems are mounted, and three descriptors of the
/// console opened.
pub open spec fn booted(v: VfsView, tar: Seq<u8>) -> VfsView {
    let f = FileView { inode: console_of(v.mounts, tar), offset: 0 };
    let w = VfsView { mounts: mounted(v.mounts, tar), ..v };
    w.installed(f).1.installed(f).1.installed(f).1
}

/// After boot `/dev/console` always resolves: to the console, unless something was
/// mounted at that very path before.
pub proof fn law_console_resolves(m: Seq<MountView>, tar: Seq<u8>)
    ensures
        resolved(mounted(m, tar), "/dev/console"@) is Ok,
        (forall|i: int| 0 <= i < m.len() ==> (#[trigger] m[i]).prefix != "/dev/console"@)
            ==> console_of(m, tar) == InodeView::Console,
{
    reveal_strlit("/dev");
    reveal_strlit("/proc");
    reveal_strlit("/initrd");
    reveal_strlit("/dev/console");
    reveal_strlit("console");
    let path = "/dev/console"@;
    let all = mounted(m, tar);
    let d = m.len() as int;
    assert(all[d].prefix == "/dev"@);
    assert(all[d + 1].prefix == "/proc"@);
    assert(all[d + 2].prefix == "/initrd"@);
    assert(path.take(4) =~= "/dev"@);
    assert(vfs::covered(all[d].prefix, path));
    assert(!vfs::covered(all[d + 1].prefix, path)) by {
        assert(path.take(5)[1] == 'd');
        assert("/proc"@[1] == 'p');
    }
    assert(!vfs::covered(all[d + 2].prefix, path)) by {
        assert(path.take(7)[1] == 'd');
        assert("/initrd"@[1] == 'i');
    }
    vfs::law_longest_mount_serves(all, path);
    let i = choose|i: int| vfs::serves(all, path, i);
    assert(vfs::serves(all, path, i));
    let prefix = all[i].prefix;
    assert(prefix.len() >= 4);
    reveal_with_fuel(vfs::walked, 3);
    if prefix.len() == path.len() {
        assert(path.take(path.len() as int) =~= path);
        assert(prefix == path);
        assert(path.skip(prefix.len() as int) =~= seq![]);
        assert(i < d) by {
            assert(all[d].prefix.len() == 4 && all[d + 1].prefix.len() == 5 && all[d + 2].prefix.len()
                == 7);
        }
        assert(m[i].prefix == path);
    } else {
        assert(path[prefix.len() as int] == '/');
        assert(prefix.len() == 4);
        assert(i == d) by {
            if i < d {
                assert(vfs::covered(all[d].prefix, path));
            }
        }
        let rest = path.skip(4);
        let name = rest.skip(1);
        assert(name =~= "console"@);
        assert(crate::text::parts(rest, crate::text::Separator::Slash) == seq![name]) by {
            assert(rest[0] == '/');
            assert(crate::text::parts(rest, crate::text::Separator::Slash) == crate::text::parts(
                name,
                crate::text::Separator::Slash,
            ));
            crate::text::lemma_parts_last(name, crate::text::Separator::Slash);
        }
        assert(seq![name].drop_last() =~= seq![]);
    }
}

/// Booting with nothing mounted and nothing open leaves the three filesystems
/// mounted, and the console at descriptors 0, 1 and 2.
pub proof fn law_boot_from_nothing(tar: Seq<u8>)
    ensures
        booted(VfsView { mounts: seq![], fds: seq![] }, tar) == (VfsView {
            mounts: boot_mounts(tar),
            fds: seq![Some(console_file()), Some(console_file()), Some(console_file())],
        }),
{
    let none = Seq::<MountView>::empty();
    law_console_resolves(none, tar);
    assert(mounted(none, tar) =~= boot_mounts(tar));
    reveal_with_fuel(free_fd, 5);
    assert(booted(VfsView { mounts: none, fds: seq![] }, tar).fds =~= seq![
        Some(console_file()),
        Some(console_file()),
        Some(console_file()),
    ]);
}

/// Mount the filesystems and seed stdin/stdout/stderr onto the lowest free
/// descriptors: fds 0/1/2 if none is open.
pub fn init(v: &mut Vfs, tar: &[u8])
    requires
        room(old(v)@.fds) >= 3,
    ensures
        final(v)@ == booted(old(v)@, tar@),
        room(final(v)@.fds) == room(old(v)@.fds) - 3,
{
    mount(&mut v.mounts, "/dev", FileSystem::Dev(DevFs));
    mount(&mut v.mounts, "/proc", FileSystem::Proc(ProcFs));
    mount(&mut v.mounts, "/initrd", FileSystem::Ramdisk(Initrd::from_tar(tar)));
    assert(v@.mounts =~= mounted(old(v)@.mounts, tar@));
    assert(v@ =~= (VfsView { mounts: mounted(old(v)@.mounts, tar@), ..old(v)@ }));
    proof {
        law_console_resolves(old(v)@.mounts, tar@);
    }
    if let Ok(console) = resolve(&v.mounts, "/dev/console") {
        proof {
            let f = FileView { inode: console@, offset: 0 };
            law_install_takes_room(v@, f);
            law_install_takes_room(v@.installed(f).1, f);
            law_install_takes_room(v@.installed(f).1.installed(f).1, f);
        }
        install(v, File { inode: console.share(), offset: 0 });
        install(v, File { inode: console.share(), offset: 0 });
        install(v, File { inode: console, offset: 0 });
    }
}

/// Give `f` the lowest free descriptor, if there is one.
pub fn install(v: &mut Vfs, f: File) -> (r: Option<usize>)
    ensures
        (r, final(v)@) == old(v)@.installed(f@),
{
    let ghost fv = f@;
    let mut i: usize = 0;
    while i < v.fds.len()
        invariant
            i <= v.fds@.len(),
            *v == *old(v),
            f@ == fv,
            free_fd(v@.fds, 0) == free_fd(v@.fds, i as int),
        decreases v.fds@.len() - i,
    {
        if v.fds[i].is_none() {
            v.fds[i] = Some(f);
            assert(v@.fds =~= old(v)@.fds.update(i as int, Some(fv)));
            return Some(i);
        }
        i = i + 1;
    }
    if v.fds.len() < MAX_FDS {
        v.fds.push(Some(f));
        assert(v@.fds =~= old(v)@.fds.push(Some(fv)));
        return Some(v.fds.len() - 1);
    }
    None
}

/// Whether another file can be opened.
pub fn has_free_fd(v: &Vfs) -> (r: bool)
    ensures
        forall|f: FileView| #[trigger] v@.installed(f).0 is Some <==> r,
{
    let mut i: usize = 0;
    while i < v.fds.len()
        invariant
            i <= v.fds@.len(),
            free_fd(v@.fds, 0) == free_fd(v@.fds, i as int),
        decreases v.fds@.len() - i,
    {
        if v.fds[i].is_none() {
            return true;
        }
        i = i + 1;
    }
    v.fds.len() < MAX_FDS
}

/// Give an inode a fresh descriptor.
pub fn install_inode(v: &mut Vfs, inode: Inode) -> (r: FsResult<usize>)
    ensures
        (r, final(v)@) == old(v)@.opened(Ok(inode@)),
{
    match install(v, File { inode, offset: 0 }) {
        Some(fd) => Ok(fd),
        None => Err(FsError::NoSpace),
    }
}

/// The socket behind a descriptor, if it is one.
pub fn sock_index(v: &Vfs, fd: usize) -> (r: Option<usize>)
    ensures
        r == match v@.file(fd as int) {
            Some(FileView { inode: InodeView::Socket(i), .. }) => Some(i),
            _ => None,
        },
{
    if fd >= v.fds.len() {
        return None;
    }
    match &v.fds[fd] {
        Some(f) => f.inode.sock_index(),
        None => None,
    }
}

/// Open `path` and return a fresh descriptor.
pub fn open(v: &mut Vfs, path: &str) -> (r: FsResult<usize>)
    ensures
        (r, final(v)@) == old(v)@.opened(resolved(old(v)@.mounts, path@)),
{
    match resolve(&v.mounts, path) {
        Ok(inode) => install_inode(v, inode),
        Err(e) => Err(e),
    }
}

/// Read up to `buf.len()` bytes at the descriptor's offset into `buf`.
pub fn read(v: &mut Vfs, sys: &mut System, fd: usize, buf: &mut [u8]) -> (r: FsResult<usize>)
    ensures
        (r, final(v)@, final(sys)@, final(buf)@) == old(v)@.read(old(sys)@, fd as int, old(buf)@),
{
    if fd >= v.fds.len() {
        return Err(FsError::InvalidArg);
    }
    let ghost before = v@;
    let r = match &mut v.fds[fd] {
        Some(f) => {
            let r = f.inode.read(sys, f.offset, buf);
            if let Ok(n) = r {
                f.offset = f.offset.wrapping_add(n as u64);
            }
            r
        },
        None => Err(FsError::InvalidArg),
    };
    proof {
        let after = before.read(old(sys)@, fd as int, old(buf)@).1;
        assert(v@.fds =~= after.fds);
    }
    r
}

/// Write `data` at the descriptor's offset, advancing it.
pub fn write(v: &mut Vfs, sys: &mut System, fd: usize, data: &[u8]) -> (r: FsResult<usize>)
    ensures
        (r, final(v)@, final(sys)@) == old(v)@.write(old(sys)@, fd as int, data@),
{
    if fd >= v.fds.len() {
        return Err(FsError::InvalidArg);
    }
    let ghost before = v@;
    let r = match &mut v.fds[fd] {
        Some(f) => {
            let r = f.inode.write(sys, data);
            if let Ok(n) = r {
                f.offset = f.offset.wrapping_add(n as u64);
            }
            r
        },
        None => Err(FsError::InvalidArg),
    };
    proof {
        let after = before.write(old(sys)@, fd as int, data@).1;
        assert(v@.fds =~= after.fds);
    }
    r
}

/// Release descriptor `fd`.
pub fn close(v: &mut Vfs, fd: usize) -> (r: FsResult<()>)
    ensures
        (r, final(v)@) == old(v)@.closed(fd as int),
{
    if fd < v.fds.len() && v.fds[fd].is_some() {
        v.fds[fd] = None;
        assert(v@.fds =~= old(v)@.fds.update(fd as int, None));
        Ok(())
    } else {
        Err(FsError::InvalidArg)
    }
}

/// What listing a path gives.
pub open spec fn listed(m: Seq<MountView>, path: Seq<char>) -> FsResult<Seq<Seq<char>>> {
    match resolved(m, path) {
        Ok(i) => i.list(),
        Err(e) => Err(e),
    }
}

/// List the entries of directory `path`.
pub fn list_dir(v: &Vfs, path: &str) -> (r: FsResult<Vec<String>>)
    ensures
        names_result(r) == listed(v@.mounts, path@),
{
    match resolve(&v.mounts, path) {
        Ok(inode) => inode.list_dir(),
        Err(e) => Err(e),
    }
}

proof fn lemma_free_fd(fds: Seq<Option<FileView>>, i: int)
    requires
        0 <= i <= fds.len(),
    ensures
        i <= free_fd(fds, i) <= fds.len(),
        free_fd(fds, i) < fds.len() ==> fds[free_fd(fds, i)] is None,
        forall|j: int| i <= j < free_fd(fds, i) ==> (#[trigger] fds[j]) is Some,
    decreases fds.len() - i,
{
    if i < fds.len() && fds[i] is Some {
        lemma_free_fd(fds, i + 1);
    }
}

/// Opening an inode gives the lowest descriptor that is not open, at offset zero,
/// and leaves every other descriptor alone. It is refused only when all
/// descriptors are open.
pub proof fn law_open_takes_lowest_free(v: VfsView, inode: InodeView, other: int)
    requires
        v.fds.len() <= MAX_FDS,
    ensures
        match v.opened(Ok(inode)) {
            (Ok(fd), w) => {
                &&& fd < 64
                &&& v.file(fd as int) is None
                &&& forall|j: int| 0 <= j < fd ==> (#[trigger] v.file(j)) is Some
                &&& w.file(fd as int) == Some(FileView { inode, offset: 0 })
                &&& other != fd ==> w.file(other) == v.file(other)
                &&& w.fds.len() <= MAX_FDS
            },
            (Err(e), w) => {
                &&& e == FsError::NoSpace
                &&& w == v
                &&& forall|j: int| 0 <= j < 64 ==> (#[trigger] v.file(j)) is Some
            },
        },
{
    lemma_free_fd(v.fds, 0);
}

/// Closing a descriptor right after it was opened undoes the opening: every
/// descriptor is as it was, and a second closing is refused.
pub proof fn law_close_undoes_open(v: VfsView, inode: InodeView, other: int)
    requires
        v.fds.len() <= MAX_FDS,
        v.opened(Ok(inode)).0 is Ok,
    ensures
        ({
            let (r, w) = v.opened(Ok(inode));
            let fd = r->Ok_0 as int;
            let (c, x) = w.closed(fd);
            &&& c is Ok
            &&& x.file(other) == v.file(other)
            &&& x.mounts == v.mounts
            &&& x.closed(fd).0 == Err::<(), FsError>(FsError::InvalidArg)
        }),
{
    lemma_free_fd(v.fds, 0);
}

/// Reading a stored file gives the bytes at the descriptor's offset and moves the
/// offset behind them, so that the next read goes on there.
pub proof fn law_reads_are_consecutive(v: VfsView, s: SystemView, fd: int, buf: Seq<u8>)
    requires
        v.file(fd) is Some,
        v.file(fd)->0.inode is Node,
        buf.len() <= usize::MAX,
    ensures
        ({
            let f = v.file(fd)->0;
            let data = f.inode->Node_0.data;
            let (r, w, t, b) = v.read(s, fd, buf);
            let n = r->Ok_0 as int;
            &&& r is Ok
            &&& n == if f.offset >= data.len() {
                0
            } else if buf.len() < data.len() - f.offset {
                buf.len() as int
            } else {
                data.len() - f.offset
            }
            &&& f.offset < data.len() ==> b.take(n) == data.subrange(f.offset as int, f.offset + n)
            &&& b.skip(n) == buf.skip(n)
            &&& data.len() <= u64::MAX ==> w.file(fd) == Some(
                FileView { inode: f.inode, offset: (f.offset + n) as u64 },
            )
            &&& t == s
        }),
{
    let f = v.file(fd)->0;
    let data = f.inode->Node_0.data;
    let rest = crate::bytes::rest_from(data, f.offset);
    let n = fitting(rest, buf.len()) as int;
    let b = overlaid(buf, rest);
    if f.offset < data.len() {
        assert(b.take(n) =~= data.subrange(f.offset as int, f.offset + n));
    }
    assert(b.skip(n) =~= buf.skip(n));
}

/// A buffer that is large enough receives a whole stored file at once, and the
/// read after that finds the end.
pub proof fn law_whole_file_is_read(v: VfsView, s: SystemView, fd: int, buf: Seq<u8>, again: Seq<u8>)
    requires
        v.file(fd) is Some,
        v.file(fd)->0.inode is Node,
        v.file(fd)->0.offset == 0,
        v.file(fd)->0.inode->Node_0.data.len() <= buf.len() <= usize::MAX,
    ensures
        ({
            let data = v.file(fd)->0.inode->Node_0.data;
            let (r, w, t, b) = v.read(s, fd, buf);
            &&& r == Ok::<usize, FsError>(data.len() as usize)
            &&& b.take(data.len() as int) == data
            &&& w.read(t, fd, again).0 == Ok::<usize, FsError>(0)
        }),
{
    law_reads_are_consecutive(v, s, fd, buf);
    let data = v.file(fd)->0.inode->Node_0.data;
    let (r, w, t, b) = v.read(s, fd, buf);
    if data.len() > 0 {
        assert(data.subrange(0, data.len() as int) =~= data);
    } else {
        assert(b.take(0) =~= data);
    }
}

/// Directories, synthetic files, stored files and the keyboard cannot be written:
/// the write is refused and changes nothing.
pub proof fn law_read_only_files(v: VfsView, s: SystemView, fd: int, data: Seq<u8>)
    requires
        v.file(fd) is Some,
        match v.file(fd)->0.inode {
            InodeView::DevDir | InodeView::ProcDir | InodeView::Proc(_) | InodeView::Node(_)
            | InodeView::Kbd => true,
            _ => false,
        },
    ensures
        v.write(s, fd, data) == (Err::<usize, FsError>(FsError::PermissionDenied), v, s),
{
}

/// A descriptor that is not open can neither be read nor written nor closed.
pub proof fn law_closed_descriptor_is_refused(
    v: VfsView,
    s: SystemView,
    fd: int,
    buf: Seq<u8>,
    data: Seq<u8>,
)
    requires
        v.file(fd) is None,
    ensures
        v.read(s, fd, buf) == (Err::<usize, FsError>(FsError::InvalidArg), v, s, buf),
        v.write(s, fd, data) == (Err::<usize, FsError>(FsError::InvalidArg), v, s),
        v.closed(fd) == (Err::<(), FsError>(FsError::InvalidArg), v),
{
}

/// The network is a file: what is delivered to a bound socket with nothing queued
/// is what the next read of its descriptor gives.
pub proof fn law_network_is_a_file(
    v: VfsView,
    s: SystemView,
    fd: int,
    idx: usize,
    dport: u16,
    src: [u8; 4],
    sport: u16,
    data: Seq<u8>,
    buf: Seq<u8>,
)
    requires
        v.file(fd) is Some,
        v.file(fd)->0.inode == InodeView::Socket(idx),
        idx < s.net.sockets.len(),
        wants(s.net.sockets[idx as int], dport),
        s.net.sockets[idx as int]->0.rx.len() == 0,
        data.len() <= buf.len() <= usize::MAX,
    ensures
        ({
            let t = SystemView { net: delivered(s.net, dport, src, sport, data), ..s };
            let (r, _, _, b) = v.read(t, fd, buf);
            r == Ok::<usize, FsError>(data.len() as usize) && b.take(data.len() as int) == data
        }),
{
    law_delivery_is_received(s.net, dport, src, sport, data, idx as int);
    crate::bytes::law_overlay(buf, data);
}

/// Zeros.
pub open spec fn zeros(n: nat) -> Seq<u8> {
    Seq::new(n, |i: int| 0u8)
}

/// What reading a descriptor until nothing comes or `room` bytes were read gives
/// behind `got`, and the tables and the system afterwards.
pub open spec fn read_up_to(v: VfsView, s: SystemView, fd: int, got: Seq<u8>, room: nat) -> (
    Seq<u8>,
    VfsView,
    SystemView,
)
    decreases room,
{
    if room == 0 {
        (got, v, s)
    } else {
        let (r, w, t, b) = v.read(s, fd, zeros(room));
        match r {
            Ok(n) => if 0 < n <= room {
                read_up_to(w, t, fd, got + b.take(n as int), (room - n) as nat)
            } else {
                (got, w, t)
            },
            Err(_) => (got, w, t),
        }
    }
}

/// What opening a path, reading up to `room` bytes of it and closing it again gives
/// and leaves.
pub open spec fn file_read(v: VfsView, s: SystemView, path: Seq<char>, room: nat) -> (
    FsResult<Seq<u8>>,
    VfsView,
    SystemView,
) {
    match v.opened(resolved(v.mounts, path)) {
        (Ok(fd), w) => {
            let (got, x, t) = read_up_to(w, s, fd as int, seq![], room);
            (Ok(got), x.closed(fd as int).1, t)
        },
        (Err(e), w) => (Err(e), w, s),
    }
}

/// What a read of a whole file gave.
pub open spec fn bytes_result(r: FsResult<Vec<u8>>) -> FsResult<Seq<u8>> {
    match r {
        Ok(b) => Ok(b@),
        Err(e) => Err(e),
    }
}

/// Read a descriptor until nothing comes or `room` bytes were read.
fn read_some(v: &mut Vfs, sys: &mut System, fd: usize, room: usize) -> (got: Vec<u8>)
    ensures
        (got@, final(v)@, final(sys)@) == read_up_to(
            old(v)@,
            old(sys)@,
            fd as int,
            seq![],
            room as nat,
        ),
{
    let mut got: Vec<u8> = Vec::new();
    let mut left: usize = room;
    let ghost goal = read_up_to(v@, sys@, fd as int, seq![], room as nat);
    assert(got@ =~= seq![]);
    while left > 0
        invariant
            goal == read_up_to(v@, sys@, fd as int, got@, left as nat),
            goal == read_up_to(old(v)@, old(sys)@, fd as int, seq![], room as nat),
        decreases left,
    {
        let mut buf: Vec<u8> = vec![0u8; left];
        assert(buf@ =~= zeros(left as nat));
        proof {
            lemma_read_fits(v@, sys@, fd as int, buf@);
        }
        match read(v, sys, fd, buf.as_mut_slice()) {
            Ok(n) => {
                if n == 0 {
                    return got;
                }
                let piece = vstd::slice::slice_subrange(buf.as_slice(), 0, n);
                crate::bytes::extend(&mut got, piece);
                left = left - n;
            },
            Err(_) => {
                return got;
            },
        }
    }
    got
}

/// Open + read up to `room` bytes + close.
pub fn fs_cat(v: &mut Vfs, sys: &mut System, path: &str, room: usize) -> (r: FsResult<Vec<u8>>)
    ensures
        (bytes_result(r), final(v)@, final(sys)@) == file_read(
            old(v)@,
            old(sys)@,
            path@,
            room as nat,
        ),
{
    let fd: usize = match open(v, path) {
        Ok(fd) => fd,
        Err(e) => {
            return Err(e);
        },
    };
    let got = read_some(v, sys, fd, room);
    let _ = close(v, fd);
    Ok(got)
}

/// A read keeps the buffer's length and gives at most as many bytes.
pub(crate) proof fn lemma_read_fits(v: VfsView, s: SystemView, fd: int, buf: Seq<u8>)
    requires
        buf.len() <= usize::MAX,
    ensures
        v.read(s, fd, buf).3.len() == buf.len(),
        v.read(s, fd, buf).0 is Ok ==> v.read(s, fd, buf).0->Ok_0 <= buf.len(),
{
}

/// After boot, a path below `/initrd` leads to what the ramdisk holds at the rest of
/// the path, and is "not found" if it holds nothing there.
pub proof fn law_ramdisk_path_resolves(tar: Seq<u8>, rest: Seq<char>)
    ensures
        resolved(boot_mounts(tar), "/initrd/"@ + rest) == match found(
            filled(dir_tree("/"@), entries_from(tar, 0)),
            crate::text::parts(rest, crate::text::Separator::Slash),
        ) {
            Some(n) => Ok::<InodeView, FsError>(InodeView::Node(n)),
            None => Err(FsError::NotFound),
        },
{
    reveal_strlit("/dev");
    reveal_strlit("/proc");
    reveal_strlit("/initrd");
    reveal_strlit("/initrd/");
    let m = boot_mounts(tar);
    let path = "/initrd/"@ + rest;
    assert(path.take(7) =~= "/initrd"@);
    assert(path[7] == '/');
    assert(path.take(4)[1] == 'i');
    assert("/dev"@[1] == 'd');
    assert(path.take(5)[1] == 'i');
    assert("/proc"@[1] == 'p');
    assert(!vfs::covered(m[0].prefix, path));
    assert(!vfs::covered(m[1].prefix, path));
    assert(vfs::covered(m[2].prefix, path));
    assert(vfs::serves(m, path, 2));
    let i = choose|i: int| vfs::serves(m, path, i);
    assert(i == 2) by {
        assert(vfs::covered(m[i].prefix, path));
    }
    let tail = path.skip(7);
    assert(tail[0] == '/');
    assert(tail.skip(1) =~= rest);
    assert(crate::text::parts(tail, crate::text::Separator::Slash) == crate::text::parts(
        rest,
        crate::text::Separator::Slash,
    ));
    vfs::law_walk_finds_node(
        filled(dir_tree("/"@), entries_from(tar, 0)),
        crate::text::parts(rest, crate::text::Separator::Slash),
    );
}

/// A mount that alone covers a path serves it.
proof fn lemma_only_mount_serves(m: Seq<MountView>, k: int, path: Seq<char>)
    requires
        0 <= k < m.len(),
        vfs::covered(m[k].prefix, path),
        forall|j: int| 0 <= j < m.len() && j != k ==> !vfs::covered((#[trigger] m[j]).prefix, path),
    ensures
        vfs::server(m, path) == Some(m[k]),
{
    assert(vfs::serves(m, path, k));
    let i = choose|i: int| vfs::serves(m, path, i);
    assert(vfs::covered(m[i].prefix, path));
}

/// After boot, the files in `/dev` are the four devices, those in `/proc` the two
/// synthetic files; any other name there is "not found".
pub proof fn law_boot_names(tar: Seq<u8>, name: Seq<char>)
    requires
        name.len() > 0,
        forall|i: int| 0 <= i < name.len() ==> #[trigger] name[i] != '/',
    ensures
        ({
            let m = boot_mounts(tar);
            let dev = resolved(m, "/dev/"@ + name);
            let proc = resolved(m, "/proc/"@ + name);
            &&& name == seq!['c', 'o', 'n', 's', 'o', 'l', 'e'] <==> dev == Ok::<
                InodeView,
                FsError,
            >(InodeView::Console)
            &&& name == seq!['n', 'u', 'l', 'l'] <==> dev == Ok::<InodeView, FsError>(
                InodeView::Null,
            )
            &&& name == seq!['z', 'e', 'r', 'o'] <==> dev == Ok::<InodeView, FsError>(
                InodeView::Zero,
            )
            &&& name == seq!['k', 'b', 'd'] <==> dev == Ok::<InodeView, FsError>(InodeView::Kbd)
            &&& name == seq!['m', 'e', 'm', 'i', 'n', 'f', 'o'] <==> proc == Ok::<
                InodeView,
                FsError,
            >(InodeView::Proc(procfs::ProcFile::Meminfo))
            &&& name == seq!['u', 'p', 't', 'i', 'm', 'e'] <==> proc == Ok::<InodeView, FsError>(
                InodeView::Proc(procfs::ProcFile::Uptime),
            )
            &&& dev is Err ==> dev->Err_0 == FsError::NotFound
            &&& proc is Err ==> proc->Err_0 == FsError::NotFound
        }),
{
    reveal_strlit("/dev");
    reveal_strlit("/proc");
    reveal_strlit("/initrd");
    reveal_strlit("/dev/");
    reveal_strlit("/proc/");
    reveal_strlit("console");
    reveal_strlit("null");
    reveal_strlit("zero");
    reveal_strlit("kbd");
    reveal_strlit("meminfo");
    reveal_strlit("uptime");
    let m = boot_mounts(tar);
    let d = "/dev/"@ + name;
    let p = "/proc/"@ + name;
    assert(d.take(4) =~= "/dev"@);
    assert(p.take(5) =~= "/proc"@);
    assert(d.take(5)[1] == 'd' && "/proc"@[1] == 'p');
    assert(p.take(4)[1] == 'p' && "/dev"@[1] == 'd');
    assert("/initrd"@[1] == 'i');
    if d.len() >= 7 {
        assert(d.take(7)[1] == 'd');
    }
    if p.len() >= 7 {
        assert(p.take(7)[1] == 'p');
    }
    lemma_only_mount_serves(m, 0, d);
    lemma_only_mount_serves(m, 1, p);
    let slash = crate::text::Separator::Slash;
    assert forall|i: int| 0 <= i < name.len() implies !crate::text::separates(
        slash,
        #[trigger] name[i],
    ) by {}
    assert(d.skip(4) =~= seq!['/'] + name);
    assert(p.skip(5) =~= seq!['/'] + name);
    let one = seq![name];
    assert(crate::text::are_parts(one, slash));
    assert(crate::text::joined(one, seq!['/']) == name);
    crate::text::law_split_undoes_join(one, '/', slash);
    reveal_with_fuel(vfs::walked, 2);
    assert(one.drop_last() =~= seq![]);
    assert("console"@ =~= seq!['c', 'o', 'n', 's', 'o', 'l', 'e']);
    assert("null"@ =~= seq!['n', 'u', 'l', 'l']);
    assert("zero"@ =~= seq!['z', 'e', 'r', 'o']);
    assert("kbd"@ =~= seq!['k', 'b', 'd']);
    assert("meminfo"@ =~= seq!['m', 'e', 'm', 'i', 'n', 'f', 'o']);
    assert("uptime"@ =~= seq!['u', 'p', 't', 'i', 'm', 'e']);
    assert("console"@.len() == 7 && "null"@.len() == 4 && "zero"@.len() == 4 && "kbd"@.len() == 3);
    assert("null"@[0] == 'n' && "zero"@[0] == 'z');
    assert("meminfo"@.len() == 7 && "uptime"@.len() == 6);
}

/// Opening, reading and closing a stored file gives its first bytes, as many as there
/// is room for, and leaves every descriptor as it was.
pub proof fn law_file_read_gives_its_start(
    v: VfsView,
    s: SystemView,
    path: Seq<char>,
    room: nat,
    t: initrd::Tree,
)
    requires
        v.fds.len() <= MAX_FDS,
        resolved(v.mounts, path) == Ok::<InodeView, FsError>(InodeView::Node(t)),
        v.opened(Ok(InodeView::Node(t))).0 is Ok,
        t.data.len() <= u64::MAX,
        room <= usize::MAX,
    ensures
        ({
            let (r, w, u) = file_read(v, s, path, room);
            &&& r is Ok
            &&& r->Ok_0 == if room < t.data.len() {
                t.data.take(room as int)
            } else {
                t.data
            }
            &&& u == s
            &&& forall|fd: int| #[trigger] w.file(fd) == v.file(fd)
        }),
{
    let (r, w) = v.opened(Ok(InodeView::Node(t)));
    let fd = r->Ok_0 as int;
    law_open_takes_lowest_free(v, InodeView::Node(t), 0);
    lemma_read_up_to_node(w, s, fd, seq![], room, t);
    let (got, x, u) = read_up_to(w, s, fd, seq![], room);
    assert(seq![] + t.data.take(got.len() as int) =~= t.data.take(got.len() as int));
    assert(t.data.take(t.data.len() as int) =~= t.data);
    assert(t.data.subrange(0, got.len() as int) =~= t.data.take(got.len() as int));
    assert(seq![] + t.data.subrange(0, got.len() as int) =~= t.data.take(got.len() as int));
    assert forall|j: int| #[trigger] file_read(v, s, path, room).1.file(j) == v.file(j) by {
        law_open_takes_lowest_free(v, InodeView::Node(t), j);
        if j != fd {
            assert(x.file(j) == w.file(j));
        }
    }
}

proof fn lemma_read_up_to_node(
    v: VfsView,
    s: SystemView,
    fd: int,
    got: Seq<u8>,
    room: nat,
    t: initrd::Tree,
)
    requires
        v.file(fd) is Some,
        v.file(fd)->0.inode == InodeView::Node(t),
        v.file(fd)->0.offset <= t.data.len(),
        t.data.len() <= u64::MAX,
        room <= usize::MAX,
    ensures
        ({
            let (b, w, u) = read_up_to(v, s, fd, got, room);
            let o = v.file(fd)->0.offset as int;
            &&& b == got + t.data.subrange(
                o,
                if o + room < t.data.len() {
                    o + room
                } else {
                    t.data.len() as int
                },
            )
            &&& u == s
            &&& w.fds.len() == v.fds.len()
            &&& w.file(fd) is Some
            &&& forall|j: int| j != fd ==> #[trigger] w.file(j) == v.file(j)
        }),
    decreases room,
{
    let o = v.file(fd)->0.offset as int;
    let end = if o + room < t.data.len() {
        o + room
    } else {
        t.data.len() as int
    };
    if room == 0 {
        assert(got + t.data.subrange(o, end) =~= got);
    } else {
        law_reads_are_consecutive(v, s, fd, zeros(room));
        let (r, w, u, b) = v.read(s, fd, zeros(room));
        let n = r->Ok_0 as int;
        if n > 0 {
            let next = got + b.take(n);
            lemma_read_up_to_node(w, u, fd, next, (room - n) as nat, t);
            assert(next + t.data.subrange(o + n, end) =~= got + t.data.subrange(o, end));
            assert(forall|j: int| j != fd ==> #[trigger] w.file(j) == v.file(j));
        } else {
            assert(got + t.data.subrange(o, end) =~= got);
        }
    }
}

/// A successful read or write moves the descriptor's offset by what it returned, and no
/// other descriptor; a failed one moves none.
pub proof fn law_offset_moves_by_count(
    v: VfsView,
    s: SystemView,
    fd: int,
    buf: Seq<u8>,
    data: Seq<u8>,
    other: int,
)
    requires
        v.file(fd) is Some,
    ensures
        ({
            let f = v.file(fd)->0;
            let (r, w, _, _) = v.read(s, fd, buf);
            &&& r is Err ==> w == v
            &&& r is Ok ==> w.file(fd) is Some && w.file(fd)->0.inode == f.inode
            &&& r is Ok && f.offset + r->Ok_0 < 0x1_0000_0000_0000_0000 ==> w.file(fd)->0.offset
                == f.offset + r->Ok_0
            &&& other != fd ==> w.file(other) == v.file(other)
            &&& w.mounts == v.mounts
        }),
        ({
            let f = v.file(fd)->0;
            let (r, w, _) = v.write(s, fd, data);
            &&& r is Err ==> w == v
            &&& r is Ok ==> w.file(fd) is Some && w.file(fd)->0.inode == f.inode
            &&& r is Ok && f.offset + r->Ok_0 < 0x1_0000_0000_0000_0000 ==> w.file(fd)->0.offset
                == f.offset + r->Ok_0
            &&& other != fd ==> w.file(other) == v.file(other)
            &&& w.mounts == v.mounts
        }),
{
}

} // verus!
