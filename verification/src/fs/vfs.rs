//! The "everything is a file" abstraction.
//!
//!   * [`FileSystem`] - a mountable tree exposing a single root [`Inode`].
//!   * [`Inode`]      - a node that can be read/written/looked-up/listed.
//!
//! The mount table and [`resolve`] turn a path like `/dev/console` into an inode.
use std::sync::Arc;
use vstd::prelude::*;
use vstd::utf8::encode_utf8;
use super::devfs::{self, DevFs};
use super::initrd::{find_child, first_named, found, Initrd, InodeNode, Tree};
use super::procfs::{self, ProcFile, ProcFs};
pub use super::File;
use crate::bytes::{fitting, overlaid, read_at, rest_from};
use crate::drivers::keyboard::KeyboardView;
use crate::net::socket::{self, SocketInode};
use crate::serial;
use crate::system::{System, SystemView};
use crate::text::{chars_of, parts, split, texts, Separator};

verus! {

/// Errors a filesystem operation can report.
#[derive(Clone, Copy, PartialEq, Eq, Structural, Debug)]
pub enum FsError {
    NotFound,
    PermissionDenied,
    NotDir,
    IsDir,
    InvalidArg,
    NoSpace,
    Io,
}

/// The errno-style code of an error.
pub open spec fn errno_of(e: FsError) -> int {
    match e {
        FsError::Io => -5,
        FsError::NotFound => -2,
        FsError::PermissionDenied => -13,
        FsError::NotDir => -20,
        FsError::IsDir => -21,
        FsError::InvalidArg => -22,
        FsError::NoSpace => -28,
    }
}

impl FsError {
    /// Map to a negative errno-style code for the syscall return value.
    pub fn errno(self) -> (r: i64)
        ensures
            r == errno_of(self),
    {
        match self {
            FsError::Io => -5,
            FsError::NotFound => -2,
            FsError::PermissionDenied => -13,
            FsError::NotDir => -20,
            FsError::IsDir => -21,
            FsError::InvalidArg => -22,
            FsError::NoSpace => -28,
        }
    }
}

pub type FsResult<T> = Result<T, FsError>;

/// What kind of node an inode is.
#[derive(Clone, Copy, PartialEq, Eq, Structural, Debug)]
pub enum FileKind {
    File,
    Dir,
    CharDev,
}

/// A single node in a filesystem tree.
pub enum Inode {
    /// The `/dev` directory.
    DevDir,
    /// `/dev/console`: writes go straight to the serial port.
    Console,
    /// `/dev/null`: reads nothing, discards writes.
    Null,
    /// `/dev/zero`: reads return zero bytes, discards writes.
    Zero,
    /// `/dev/kbd`: reads decoded keypress characters.
    Kbd,
    /// The `/proc` directory.
    ProcDir,
    /// A synthetic file.
    Proc(ProcFile),
    /// A file or directory of the initial ramdisk.
    Node(Arc<InodeNode>),
    /// A network socket.
    Socket(SocketInode),
}

/// What an [`Inode`] is.
pub enum InodeView {
    DevDir,
    Console,
    Null,
    Zero,
    Kbd,
    ProcDir,
    Proc(ProcFile),
    Node(Tree),
    Socket(usize),
}

impl View for Inode {
    type V = InodeView;

    open spec fn view(&self) -> InodeView {
        match self {
            Inode::DevDir => InodeView::DevDir,
            Inode::Console => InodeView::Console,
            Inode::Null => InodeView::Null,
            Inode::Zero => InodeView::Zero,
            Inode::Kbd => InodeView::Kbd,
            Inode::ProcDir => InodeView::ProcDir,
            Inode::Proc(p) => InodeView::Proc(*p),
            Inode::Node(n) => InodeView::Node(n.tree()),
            Inode::Socket(s) => InodeView::Socket(s.idx),
        }
    }
}

/// What an operation that gives an inode gave.
pub open spec fn inode_result(r: FsResult<Inode>) -> FsResult<InodeView> {
    match r {
        Ok(i) => Ok(i@),
        Err(e) => Err(e),
    }
}

impl InodeView {
    pub open spec fn kind(self) -> FileKind {
        match self {
            InodeView::DevDir | InodeView::ProcDir => FileKind::Dir,
            InodeView::Proc(_) => FileKind::File,
            InodeView::Node(t) => t.kind,
            _ => FileKind::CharDev,
        }
    }

    /// What a read of up to `buf.len()` bytes returns, and what it leaves in the
    /// system and in the buffer.
    pub open spec fn read(self, s: SystemView, offset: u64, buf: Seq<u8>) -> (
        FsResult<usize>,
        SystemView,
        Seq<u8>,
    ) {
        match self {
            InodeView::DevDir | InodeView::ProcDir => (Err(FsError::PermissionDenied), s, buf),
            InodeView::Console | InodeView::Null => (Ok(0), s, buf),
            InodeView::Zero => (Ok(buf.len() as usize), s, Seq::new(buf.len(), |i: int| 0u8)),
            InodeView::Kbd => {
                let keys = s.keyboard.buffer;
                let n = fitting(keys, buf.len());
                let left = KeyboardView { buffer: keys.skip(n as int), ..s.keyboard };
                (Ok(n as usize), SystemView { keyboard: left, ..s }, overlaid(buf, keys))
            },
            InodeView::Proc(p) => {
                let rest = rest_from(encode_utf8(procfs::proc_text(p, s)), offset);
                (Ok(fitting(rest, buf.len()) as usize), s, overlaid(buf, rest))
            },
            InodeView::Node(t) => {
                let rest = rest_from(t.data, offset);
                (Ok(fitting(rest, buf.len()) as usize), s, overlaid(buf, rest))
            },
            InodeView::Socket(i) => {
                let net = s.net.received(i as int);
                match socket::oldest(s.net.sockets, i as int) {
                    Some(d) => (
                        Ok(fitting(d.data, buf.len()) as usize),
                        SystemView { net, ..s },
                        overlaid(buf, d.data),
                    ),
                    None => (Ok(0), s, buf),
                }
            },
        }
    }

    /// What a write of `data` returns, and what it leaves in the system.
    pub open spec fn write(self, s: SystemView, data: Seq<u8>) -> (FsResult<usize>, SystemView) {
        match self {
            InodeView::Console => (
                Ok(data.len() as usize),
                SystemView { serial: s.serial + data, ..s },
            ),
            InodeView::Null | InodeView::Zero => (Ok(data.len() as usize), s),
            InodeView::Socket(i) => {
                let (r, net) = socket::written(s.net, i as int, data);
                (r, SystemView { net, ..s })
            },
            _ => (Err(FsError::PermissionDenied), s),
        }
    }

    /// The child with this name.
    pub open spec fn lookup(self, name: Seq<char>) -> FsResult<InodeView> {
        match self {
            InodeView::DevDir => devfs::device(name),
            InodeView::ProcDir => procfs::proc_file(name),
            InodeView::Node(t) => {
                let i = first_named(t.children, name, 0);
                if i < t.children.len() {
                    Ok(InodeView::Node(t.children[i]))
                } else {
                    Err(FsError::NotFound)
                }
            },
            _ => Err(FsError::NotFound),
        }
    }

    /// The names of the children.
    pub open spec fn list(self) -> FsResult<Seq<Seq<char>>> {
        match self {
            InodeView::DevDir => Ok(devfs::device_names()),
            InodeView::ProcDir => Ok(procfs::proc_names()),
            InodeView::Node(t) if t.kind == FileKind::Dir => Ok(
                t.children.map_values(|c: Tree| c.name),
            ),
            _ => Err(FsError::NotDir),
        }
    }
}

/// What a listing gave.
pub open spec fn names_result(r: FsResult<Vec<String>>) -> FsResult<Seq<Seq<char>>> {
    match r {
        Ok(v) => Ok(texts(v@)),
        Err(e) => Err(e),
    }
}

impl Inode {
    /// Another handle on the same node.
    pub fn share(&self) -> (r: Inode)
        ensures
            r == *self,
    {
        match self {
            Inode::DevDir => Inode::DevDir,
            Inode::Console => Inode::Console,
            Inode::Null => Inode::Null,
            Inode::Zero => Inode::Zero,
            Inode::Kbd => Inode::Kbd,
            Inode::ProcDir => Inode::ProcDir,
            Inode::Proc(p) => Inode::Proc(*p),
            Inode::Node(n) => Inode::Node(Arc::clone(n)),
            Inode::Socket(s) => Inode::Socket(SocketInode { idx: s.idx }),
        }
    }

    pub fn kind(&self) -> (r: FileKind)
        ensures
            r == self@.kind(),
    {
        match self {
            Inode::DevDir | Inode::ProcDir => FileKind::Dir,
            Inode::Proc(_) => FileKind::File,
            Inode::Node(n) => n.kind,
            _ => FileKind::CharDev,
        }
    }

    /// Read up to `buf.len()` bytes at `offset`. Nodes that cannot be read say
    /// "permission denied".
    pub fn read(&self, sys: &mut System, offset: u64, buf: &mut [u8]) -> (r: FsResult<usize>)
        ensures
            (r, final(sys)@, final(buf)@) == self@.read(old(sys)@, offset, old(buf)@),
    {
        match self {
            Inode::DevDir | Inode::ProcDir => Err(FsError::PermissionDenied),
            Inode::Console | Inode::Null => Ok(0),
            Inode::Zero => Ok(devfs::read_zero(buf)),
            Inode::Kbd => Ok(devfs::read_kbd(&mut sys.keyboard, buf)),
            Inode::Proc(p) => Ok(procfs::read(*p, sys, offset, buf)),
            Inode::Node(n) => Ok(read_at(n.data.as_slice(), offset, buf)),
            Inode::Socket(s) => s.read(&mut sys.net, buf),
        }
    }

    /// Write `data`. Nodes that cannot be written say "permission denied".
    pub fn write(&self, sys: &mut System, data: &[u8]) -> (r: FsResult<usize>)
        ensures
            (r, final(sys)@) == self@.write(old(sys)@, data@),
    {
        match self {
            Inode::Console => {
                serial::write_bytes(&mut sys.serial, data);
                Ok(data.len())
            },
            Inode::Null | Inode::Zero => Ok(data.len()),
            Inode::Socket(s) => s.write(&mut sys.net, data),
            _ => Err(FsError::PermissionDenied),
        }
    }

    /// Find a child by name (directories only).
    pub fn lookup(&self, name: &String) -> (r: FsResult<Inode>)
        ensures
            inode_result(r) == self@.lookup(name@),
    {
        match self {
            Inode::DevDir => devfs::lookup(name.as_str()),
            Inode::ProcDir => procfs::lookup(name.as_str()),
            Inode::Node(n) => match find_child(n, name) {
                Some(i) => {
                    assert(n@.children[i as int] == n.children@[i as int]@);
                    Ok(Inode::Node(Arc::clone(&n.children[i])))
                },
                None => Err(FsError::NotFound),
            },
            _ => Err(FsError::NotFound),
        }
    }

    /// List child names (directories only); others report "not a directory".
    pub fn list_dir(&self) -> (r: FsResult<Vec<String>>)
        ensures
            names_result(r) == self@.list(),
    {
        match self {
            Inode::DevDir => Ok(devfs::list_dir()),
            Inode::ProcDir => Ok(procfs::list_dir()),
            Inode::Node(n) => {
                if n.kind == FileKind::Dir {
                    Ok(n.list_dir())
                } else {
                    Err(FsError::NotDir)
                }
            },
            _ => Err(FsError::NotDir),
        }
    }

    /// The socket-table index of a network socket; other nodes have none.
    pub fn sock_index(&self) -> (r: Option<usize>)
        ensures
            r == match self@ {
                InodeView::Socket(i) => Some(i),
                _ => None,
            },
    {
        match self {
            Inode::Socket(s) => s.sock_index(),
            _ => None,
        }
    }
}

/// A mountable filesystem that exposes a root inode.
pub enum FileSystem {
    Dev(DevFs),
    Proc(ProcFs),
    Ramdisk(Initrd),
}

impl FileSystem {
    /// The root of the filesystem.
    pub open spec fn top(self) -> InodeView {
        match self {
            FileSystem::Dev(_) => InodeView::DevDir,
            FileSystem::Proc(_) => InodeView::ProcDir,
            FileSystem::Ramdisk(i) => InodeView::Node(i@),
        }
    }

    pub fn name(&self) -> (r: &'static str)
        ensures
            r == match self {
                FileSystem::Dev(_) => "devfs",
                FileSystem::Proc(_) => "procfs",
                FileSystem::Ramdisk(_) => "initrd",
            },
    {
        match self {
            FileSystem::Dev(d) => d.name(),
            FileSystem::Proc(p) => p.name(),
            FileSystem::Ramdisk(i) => i.name(),
        }
    }

    pub fn root(&self) -> (r: Inode)
        ensures
            r@ == self.top(),
    {
        match self {
            FileSystem::Dev(d) => d.root(),
            FileSystem::Proc(p) => p.root(),
            FileSystem::Ramdisk(i) => i.root(),
        }
    }
}

/// One entry of the mount table.
pub struct Mount {
    pub prefix: &'static str,
    pub fs: FileSystem,
}

/// The mount table, oldest entry first, e.g. `("/dev", devfs)`.
pub struct Mounts {
    pub table: Vec<Mount>,
}

/// What a [`Mount`] says: the prefix, and the root of what is mounted there.
pub struct MountView {
    pub prefix: Seq<char>,
    pub root: InodeView,
}

impl View for Mount {
    type V = MountView;

    open spec fn view(&self) -> MountView {
        MountView { prefix: self.prefix@, root: self.fs.top() }
    }
}

impl View for Mounts {
    type V = Seq<MountView>;

    open spec fn view(&self) -> Seq<MountView> {
        self.table@.map_values(|m: Mount| m@)
    }
}

impl Mounts {
    pub fn new() -> (r: Mounts)
        ensures
            r@ == Seq::<MountView>::empty(),
    {
        let r = Mounts { table: Vec::new() };
        assert(r@ =~= Seq::<MountView>::empty());
        r
    }
}

/// Register `fs` at absolute mount `prefix` (no trailing slash, e.g. `/dev`).
pub fn mount(m: &mut Mounts, prefix: &'static str, fs: FileSystem)
    ensures
        final(m)@ == old(m)@.push(MountView { prefix: prefix@, root: fs.top() }),
{
    let entry = Mount { prefix, fs };
    m.table.push(entry);
    assert(m@ =~= old(m)@.push(MountView { prefix: prefix@, root: fs.top() }));
}

/// Whether `prefix` is the root, `/`.
pub open spec fn is_root(prefix: Seq<char>) -> bool {
    prefix.len() == 1 && prefix[0] == '/'
}

/// Whether `prefix` covers `path` as a whole path component. The root covers every
/// absolute path.
pub open spec fn covered(prefix: Seq<char>, path: Seq<char>) -> bool {
    &&& prefix.len() <= path.len()
    &&& path.take(prefix.len() as int) == prefix
    &&& is_root(prefix) || prefix.len() == path.len() || path[prefix.len() as int] == '/'
}

/// Does mount `prefix` cover `path` as a whole path component? The root covers
/// every absolute path.
pub fn covers(prefix: &[char], path: &[char]) -> (r: bool)
    ensures
        r == covered(prefix@, path@),
{
    if prefix.len() > path.len() {
        return false;
    }
    let mut i: usize = 0;
    while i < prefix.len()
        invariant
            i <= prefix@.len() <= path@.len(),
            forall|j: int| 0 <= j < i ==> path@[j] == prefix@[j],
        decreases prefix@.len() - i,
    {
        if prefix[i] != path[i] {
            assert(path@.take(prefix@.len() as int)[i as int] != prefix@[i as int]);
            return false;
        }
        i = i + 1;
    }
    assert(path@.take(prefix@.len() as int) =~= prefix@);
    (prefix.len() == 1 && prefix[0] == '/') || prefix.len() == path.len() || path[prefix.len()]
        == '/'
}

/// Whether entry `i` is the one that serves `path`: of those that cover it, one
/// with the longest prefix, and the latest of these.
pub open spec fn serves(m: Seq<MountView>, path: Seq<char>, i: int) -> bool {
    &&& 0 <= i < m.len()
    &&& covered(m[i].prefix, path)
    &&& forall|j: int|
        0 <= j < m.len() && covered(#[trigger] m[j].prefix, path) ==> m[j].prefix.len()
            <= m[i].prefix.len()
    &&& forall|j: int|
        i < j < m.len() && covered(#[trigger] m[j].prefix, path) ==> m[j].prefix.len()
            < m[i].prefix.len()
}

/// Longest matching mount prefix (so `/dev` beats `/` if both were mounted): its
/// length and its place in the table.
pub fn longest_mount(m: &Mounts, path: &[char]) -> (r: Option<(usize, usize)>)
    ensures
        match r {
            Some((len, i)) => serves(m@, path@, i as int) && len == m@[i as int].prefix.len(),
            None => forall|j: int|
                0 <= j < m@.len() ==> !covered((#[trigger] m@[j]).prefix, path@),
        },
{
    let mut best: Option<(usize, usize)> = None;
    let mut i: usize = 0;
    while i < m.table.len()
        invariant
            i <= m.table@.len(),
            match best {
                Some((len, b)) => b < i && serves(m@.take(i as int), path@, b as int) && len
                    == m@[b as int].prefix.len(),
                None => forall|j: int|
                    0 <= j < i ==> !covered((#[trigger] m@[j]).prefix, path@),
            },
        decreases m.table@.len() - i,
    {
        let ghost front = m@.take(i as int);
        let ghost next = m@.take(i + 1);
        assert(forall|j: int| 0 <= j < i ==> #[trigger] next[j] == front[j] && front[j] == m@[j]);
        let prefix = chars_of(m.table[i].prefix);
        assert(next[i as int] == m@[i as int]);
        assert(m@[i as int].prefix == prefix@);
        let longest = match best {
            Some((len, _)) => prefix.len() >= len,
            None => true,
        };
        if covers(prefix.as_slice(), path) && longest {
            best = Some((prefix.len(), i));
            assert(serves(next, path@, i as int)) by {
                assert forall|j: int|
                    0 <= j < next.len() && covered(#[trigger] next[j].prefix, path@) implies next[j].prefix.len()
                    <= next[i as int].prefix.len() by {
                    if j < i {
                        assert(covered(front[j].prefix, path@));
                        assert(covered(m@[j].prefix, path@));
                    }
                }
            }
        } else {
            proof {
                match best {
                    Some((len, b)) => {
                        assert(serves(next, path@, b as int)) by {
                            assert(next[b as int] == front[b as int]);
                            assert forall|j: int|
                                0 <= j < next.len() && covered(
                                    #[trigger] next[j].prefix,
                                    path@,
                                ) implies next[j].prefix.len() <= next[b as int].prefix.len() by {
                                if j < i {
                                    assert(covered(front[j].prefix, path@));
                                }
                            }
                            assert forall|j: int|
                                b < j < next.len() && covered(
                                    #[trigger] next[j].prefix,
                                    path@,
                                ) implies next[j].prefix.len() < next[b as int].prefix.len() by {
                                if j < i {
                                    assert(covered(front[j].prefix, path@));
                                }
                            }
                        }
                    },
                    None => {
                        assert(!covered(m@[i as int].prefix, path@));
                    },
                }
            }
        }
        i = i + 1;
    }
    assert(m@.take(i as int) =~= m@);
    best
}

/// What walking down `path` from a node gives.
pub open spec fn walked(from: FsResult<InodeView>, path: Seq<Seq<char>>) -> FsResult<InodeView>
    decreases path.len(),
{
    if path.len() == 0 {
        from
    } else {
        match walked(from, path.drop_last()) {
            Ok(n) => n.lookup(path.last()),
            Err(e) => Err(e),
        }
    }
}

/// Which entry serves `path`, if any does.
pub open spec fn server(m: Seq<MountView>, path: Seq<char>) -> Option<MountView> {
    if exists|i: int| serves(m, path, i) {
        Some(m[choose|i: int| serves(m, path, i)])
    } else {
        None
    }
}

/// What an absolute path resolves to: from the root of the mount that serves it,
/// down the components behind the mount's prefix.
pub open spec fn resolved(m: Seq<MountView>, path: Seq<char>) -> FsResult<InodeView> {
    if path.len() == 0 || path[0] != '/' {
        Err(FsError::InvalidArg)
    } else {
        match server(m, path) {
            Some(s) => walked(
                Ok(s.root),
                parts(path.skip(s.prefix.len() as int), Separator::Slash),
            ),
            None => Err(FsError::NotFound),
        }
    }
}

proof fn lemma_server_unique(m: Seq<MountView>, path: Seq<char>, i: int, j: int)
    requires
        serves(m, path, i),
        serves(m, path, j),
    ensures
        i == j,
{
    assert(covered(m[i].prefix, path));
    assert(covered(m[j].prefix, path));
}

proof fn lemma_walk_stops(from: FsResult<InodeView>, path: Seq<Seq<char>>, n: int)
    requires
        0 <= n <= path.len(),
        walked(from, path.take(n)) is Err,
    ensures
        walked(from, path) == walked(from, path.take(n)),
    decreases path.len() - n,
{
    if n == path.len() {
        assert(path.take(n) =~= path);
    } else {
        assert(path.take(n + 1).drop_last() =~= path.take(n));
        lemma_walk_stops(from, path, n + 1);
    }
}

/// Resolve an absolute path to an inode by matching a mount then walking
/// each `/`-separated component through [`Inode::lookup`].
pub fn resolve(m: &Mounts, path: &str) -> (r: FsResult<Inode>)
    ensures
        inode_result(r) == resolved(m@, path@),
{
    let chars = chars_of(path);
    if chars.len() == 0 || chars[0] != '/' {
        return Err(FsError::InvalidArg);
    }
    match longest_mount(m, chars.as_slice()) {
        Some((plen, i)) => {
            proof {
                let k = choose|k: int| serves(m@, path@, k);
                lemma_server_unique(m@, path@, i as int, k);
            }
            let mut node = m.table[i].fs.root();
            let comps = split(
                vstd::slice::slice_subrange(chars.as_slice(), plen, chars.len()),
                Separator::Slash,
            );
            let ghost path_parts = texts(comps@);
            assert(chars@.subrange(plen as int, chars@.len() as int) =~= path@.skip(plen as int));
            let ghost top = m@[i as int].root;
            assert(path_parts.take(0) =~= seq![]);
            let mut k: usize = 0;
            while k < comps.len()
                invariant
                    k <= comps@.len(),
                    path_parts == texts(comps@),
                    walked(Ok(top), path_parts.take(k as int)) == Ok::<InodeView, FsError>(node@),
                    resolved(m@, path@) == walked(Ok(top), path_parts),
                decreases comps@.len() - k,
            {
                assert(path_parts.take(k + 1).drop_last() =~= path_parts.take(k as int));
                assert(path_parts[k as int] == comps@[k as int]@);
                let next = node.lookup(&comps[k]);
                proof {
                    if next is Err {
                        lemma_walk_stops(Ok(top), path_parts, k + 1);
                    }
                }
                match next {
                    Ok(n) => {
                        node = n;
                    },
                    Err(e) => {
                        return Err(e);
                    },
                }
                k = k + 1;
            }
            assert(path_parts.take(k as int) =~= path_parts);
            Ok(node)
        },
        None => {
            proof {
                if exists|i: int| serves(m@, path@, i) {
                    let i = choose|i: int| serves(m@, path@, i);
                    assert(covered(m@[i].prefix, path@));
                }
            }
            Err(FsError::NotFound)
        },
    }
}

proof fn lemma_found_last(t: Tree, path: Seq<Seq<char>>)
    requires
        path.len() > 0,
    ensures
        found(t, path) == match found(t, path.drop_last()) {
            Some(n) => {
                let i = first_named(n.children, path.last(), 0);
                if i < n.children.len() {
                    Some(n.children[i])
                } else {
                    None
                }
            },
            None => None,
        },
    decreases path.len(),
{
    let i = first_named(t.children, path[0], 0);
    if path.len() == 1 {
        assert(path.drop_last() =~= seq![]);
        assert(path.skip(1) =~= seq![]);
        if i < t.children.len() {
            assert(found(t.children[i], path.skip(1)) == Some(t.children[i]));
        }
    } else {
        assert(path.drop_last().skip(1) =~= path.skip(1).drop_last());
        assert(path.skip(1).last() == path.last());
        assert(path.drop_last()[0] == path[0]);
        if i < t.children.len() {
            lemma_found_last(t.children[i], path.skip(1));
        }
    }
}

/// Walking down a path from a node of the ramdisk leads to the node that is found
/// there, and fails with "not found" where there is none.
pub proof fn law_walk_finds_node(t: Tree, path: Seq<Seq<char>>)
    ensures
        walked(Ok(InodeView::Node(t)), path) == match found(t, path) {
            Some(n) => Ok::<InodeView, FsError>(InodeView::Node(n)),
            None => Err(FsError::NotFound),
        },
    decreases path.len(),
{
    if path.len() > 0 {
        lemma_found_last(t, path);
        law_walk_finds_node(t, path.drop_last());
    }
}

/// The mount that serves a path covers it, and no mount that covers the path has a
/// longer prefix; a path is "not found" for want of a mount only if none covers it.
pub proof fn law_longest_mount_serves(m: Seq<MountView>, path: Seq<char>)
    ensures
        match server(m, path) {
            Some(s) => covered(s.prefix, path) && forall|j: int|
                0 <= j < m.len() && covered(#[trigger] m[j].prefix, path) ==> m[j].prefix.len()
                    <= s.prefix.len(),
            None => forall|j: int| 0 <= j < m.len() ==> !covered((#[trigger] m[j]).prefix, path),
        },
{
    if server(m, path) is None {
        assert forall|j: int| 0 <= j < m.len() implies !covered((#[trigger] m[j]).prefix, path) by {
            if covered(m[j].prefix, path) {
                lemma_server_exists(m, path, j);
            }
        }
    }
}

proof fn lemma_server_exists(m: Seq<MountView>, path: Seq<char>, j: int)
    requires
        0 <= j < m.len(),
        covered(m[j].prefix, path),
    ensures
        exists|i: int| serves(m, path, i),
    decreases path.len() - m[j].prefix.len(), m.len() - j,
{
    if !serves(m, path, j) {
        if exists|k: int|
            0 <= k < m.len() && covered(#[trigger] m[k].prefix, path) && m[k].prefix.len()
                > m[j].prefix.len() {
            let k = choose|k: int|
                0 <= k < m.len() && covered(#[trigger] m[k].prefix, path) && m[k].prefix.len()
                    > m[j].prefix.len();
            lemma_server_exists(m, path, k);
        } else {
            let k = choose|k: int|
                j < k < m.len() && covered(#[trigger] m[k].prefix, path) && m[k].prefix.len()
                    >= m[j].prefix.len();
            lemma_server_exists(m, path, k);
        }
    }
}

/// A mount at the root covers every absolute path, and gives way to any other
/// mount that covers the path: `/dev` beats `/` where both are mounted.
pub proof fn law_root_covers_and_gives_way(m: Seq<MountView>, path: Seq<char>, r: int, j: int)
    requires
        path.len() > 0,
        path[0] == '/',
        0 <= r < m.len(),
        is_root(m[r].prefix),
        0 <= j < m.len(),
        covered(m[j].prefix, path),
        m[j].prefix.len() > 1,
    ensures
        covered(m[r].prefix, path),
        server(m, path) is Some,
        server(m, path)->0.prefix.len() >= m[j].prefix.len(),
        !is_root(server(m, path)->0.prefix),
{
    assert(path.take(1) =~= m[r].prefix);
    law_longest_mount_serves(m, path);
}

/// Which paths a mount covers: its prefix itself, and what follows it behind a slash;
/// but no path that goes on with another character, unless the mount is the root.
pub proof fn law_mount_covers_whole_components(prefix: Seq<char>, c: char, rest: Seq<char>)
    ensures
        covered(prefix, prefix),
        covered(prefix, prefix + seq!['/'] + rest),
        c != '/' && prefix != seq!['/'] ==> !covered(prefix, prefix + seq![c] + rest),
        covered(seq!['/'], seq!['/'] + rest),
{
    assert(prefix.take(prefix.len() as int) =~= prefix);
    assert((prefix + seq!['/'] + rest).take(prefix.len() as int) =~= prefix);
    assert((seq!['/'] + rest).take(1) =~= seq!['/']);
    if is_root(prefix) {
        assert(prefix =~= seq!['/']);
    }
}

/// Of two mounts at the same prefix, the later one serves.
pub proof fn law_later_mount_hides_earlier(m: Seq<MountView>, e: MountView, path: Seq<char>)
    requires
        covered(e.prefix, path),
        forall|j: int|
            0 <= j < m.len() && covered(#[trigger] m[j].prefix, path) ==> m[j].prefix.len()
                <= e.prefix.len(),
    ensures
        server(m.push(e), path) == Some(e),
{
    let n = m.push(e);
    let k = m.len() as int;
    assert(n[k] == e);
    assert(forall|j: int| 0 <= j < k ==> #[trigger] n[j] == m[j]);
    assert(serves(n, path, k)) by {
        assert forall|j: int|
            0 <= j < n.len() && covered(#[trigger] n[j].prefix, path) implies n[j].prefix.len()
            <= n[k].prefix.len() by {
            if j < k {
                assert(covered(m[j].prefix, path));
            }
        }
    }
    let i = choose|i: int| serves(n, path, i);
    lemma_server_unique(n, path, i, k);
}

/// A path that does not start with a slash is refused.
pub proof fn law_paths_are_absolute(m: Seq<MountView>, path: Seq<char>)
    ensures
        path.len() == 0 || path[0] as u32 != 47 ==> resolved(m, path) == Err::<InodeView, FsError>(
            FsError::InvalidArg,
        ),
{
}

/// What the devices read as: the console and `/dev/null` as nothing, `/dev/zero` as
/// zeros throughout, and directories not at all.
pub proof fn law_device_reads(s: SystemView, offset: u64, buf: Seq<u8>, i: int)
    requires
        buf.len() <= usize::MAX,
    ensures
        InodeView::Console.read(s, offset, buf) == (Ok::<usize, FsError>(0), s, buf),
        InodeView::Null.read(s, offset, buf) == (Ok::<usize, FsError>(0), s, buf),
        InodeView::Zero.read(s, offset, buf).0 == Ok::<usize, FsError>(buf.len() as usize),
        InodeView::Zero.read(s, offset, buf).1 == s,
        InodeView::Zero.read(s, offset, buf).2.len() == buf.len(),
        0 <= i < buf.len() ==> InodeView::Zero.read(s, offset, buf).2[i] == 0,
        InodeView::DevDir.read(s, offset, buf).0 == Err::<usize, FsError>(FsError::PermissionDenied),
        InodeView::ProcDir.read(s, offset, buf).0 == Err::<usize, FsError>(FsError::PermissionDenied),
{
}

/// What the devices do with what is written: the console prints it, and `/dev/null` and
/// `/dev/zero` drop it.
pub proof fn law_device_writes(s: SystemView, data: Seq<u8>)
    requires
        data.len() <= usize::MAX,
    ensures
        InodeView::Console.write(s, data).0 == Ok::<usize, FsError>(data.len() as usize),
        InodeView::Console.write(s, data).1.serial == s.serial + data,
        InodeView::Console.write(s, data).1.net == s.net,
        InodeView::Null.write(s, data) == (Ok::<usize, FsError>(data.len() as usize), s),
        InodeView::Zero.write(s, data) == (Ok::<usize, FsError>(data.len() as usize), s),
{
}

/// The keyboard gives its keys in the order in which they came, as many as there is
/// room for, and keeps the others.
pub proof fn law_keyboard_read(s: SystemView, offset: u64, buf: Seq<u8>, got: Seq<u8>, left: Seq<u8>)
    requires
        s.keyboard.buffer == got + left,
        got.len() <= buf.len() <= usize::MAX,
        got.len() == buf.len() || left.len() == 0,
    ensures
        ({
            let (r, t, b) = InodeView::Kbd.read(s, offset, buf);
            &&& r == Ok::<usize, FsError>(got.len() as usize)
            &&& t.keyboard.buffer == left
            &&& b.len() == buf.len()
            &&& b.take(got.len() as int) == got
            &&& b.skip(got.len() as int) == buf.skip(got.len() as int)
        }),
{
    let (r, t, b) = InodeView::Kbd.read(s, offset, buf);
    assert(t.keyboard.buffer =~= left);
    assert(b.take(got.len() as int) =~= got);
    assert(b.skip(got.len() as int) =~= buf.skip(got.len() as int));
}

/// A synthetic file reads as its text does at that moment, from the offset on.
pub proof fn law_synthetic_read(
    p: ProcFile,
    s: SystemView,
    offset: u64,
    buf: Seq<u8>,
    before: Seq<u8>,
    got: Seq<u8>,
    left: Seq<u8>,
)
    requires
        encode_utf8(procfs::proc_text(p, s)) == before + got + left,
        before.len() == offset,
        got.len() <= buf.len() <= usize::MAX,
        got.len() == buf.len() || left.len() == 0,
    ensures
        ({
            let (r, t, b) = InodeView::Proc(p).read(s, offset, buf);
            &&& r == Ok::<usize, FsError>(got.len() as usize)
            &&& t == s
            &&& b.take(got.len() as int) == got
            &&& b.skip(got.len() as int) == buf.skip(got.len() as int)
        }),
{
    let (r, t, b) = InodeView::Proc(p).read(s, offset, buf);
    let rest = rest_from(encode_utf8(procfs::proc_text(p, s)), offset);
    assert(rest =~= got + left);
    assert(b.take(got.len() as int) =~= got);
    assert(b.skip(got.len() as int) =~= buf.skip(got.len() as int));
}

/// What nodes are: the two synthetic directories are directories, synthetic files are
/// files, what the ramdisk holds is what it says, and devices and sockets are character
/// devices.
pub proof fn law_node_kinds(p: ProcFile, t: Tree, i: usize)
    ensures
        InodeView::DevDir.kind() is Dir && InodeView::ProcDir.kind() is Dir,
        InodeView::Proc(p).kind() is File,
        InodeView::Node(t).kind() == t.kind,
        InodeView::Console.kind() is CharDev && InodeView::Null.kind() is CharDev,
        InodeView::Zero.kind() is CharDev && InodeView::Kbd.kind() is CharDev,
        InodeView::Socket(i).kind() is CharDev,
{
}

/// A listing names exactly what can be looked up: every name in it is found, and every
/// name that is found is in it. What is no directory has no listing.
pub proof fn law_listing_matches_lookup(n: InodeView, name: Seq<char>)
    ensures
        match n.list() {
            Ok(names) => n.kind() is Dir && (names.contains(name) <==> n.lookup(name) is Ok),
            Err(e) => e is NotDir && !(n.kind() is Dir),
        },
        n.lookup(name) is Err ==> n.lookup(name)->Err_0 is NotFound,
{
    match n {
        InodeView::DevDir => {
            let names = devfs::device_names();
            assert(names[0] == "console"@ && names[1] == "null"@ && names[2] == "zero"@ && names[3]
                == "kbd"@);
        },
        InodeView::ProcDir => {
            let names = procfs::proc_names();
            assert(names[0] == "meminfo"@ && names[1] == "uptime"@);
        },
        InodeView::Node(t) => {
            let names = t.children.map_values(|c: Tree| c.name);
            if names.contains(name) {
                let j = choose|j: int| 0 <= j < names.len() && names[j] == name;
                super::initrd::law_first_child_counts(t.children, name, j);
            }
            let i = first_named(t.children, name, 0);
            super::initrd::lemma_first_named(t.children, name, 0);
            if i < t.children.len() {
                assert(names[i] == name);
            }
        },
        _ => {},
    }
}

/// A path is walked component by component: what the first components lead to is
/// where the others start.
pub proof fn law_walk_in_two_goes(
    from: FsResult<InodeView>,
    a: Seq<Seq<char>>,
    b: Seq<Seq<char>>,
    name: Seq<char>,
)
    ensures
        walked(from, a + b) == walked(walked(from, a), b),
        from is Ok ==> walked(from, seq![name]) == from->Ok_0.lookup(name),
        from is Err ==> walked(from, a) == from,
    decreases b.len(), a.len(),
{
    reveal_with_fuel(walked, 2);
    assert(seq![name].drop_last() =~= seq![]);
    if b.len() == 0 {
        assert(a + b =~= a);
    } else {
        assert((a + b).drop_last() =~= a + b.drop_last());
        law_walk_in_two_goes(from, a, b.drop_last(), name);
    }
    if from is Err && a.len() > 0 {
        assert(a.take(0) =~= seq![]);
        lemma_walk_stops(from, a, 0);
    }
}

} // verus!
