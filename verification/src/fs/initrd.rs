//! `initrd` - a read-only filesystem parsed from a ustar tarball.
//!
//! The 512-byte headers of the archive are walked to build an in-memory tree of
//! nodes: a real on-disk format, parsed into the same inodes as the synthetic
//! file systems.
use std::sync::Arc;
use vstd::prelude::*;
use vstd::utf8::{
    decode_utf8, encode_utf8, encode_utf8_decode_utf8, encode_utf8_valid_utf8, valid_utf8,
};
use super::vfs::{FileKind, Inode, InodeView};
use crate::bytes::extend;
use crate::text::{chars_of, from_utf8_lossy, lossy, owned, parts, split, texts, Separator};

verus! {

pub const BLOCK: usize = 512;

/// A node in the parsed initrd tree (file or directory).
pub struct InodeNode {
    pub name: String,
    pub kind: FileKind,
    pub data: Vec<u8>,
    pub children: Vec<Arc<InodeNode>>,
}

/// What an [`InodeNode`] holds.
#[verifier::ext_equal]
pub struct Tree {
    pub name: Seq<char>,
    pub kind: FileKind,
    pub data: Seq<u8>,
    pub children: Seq<Tree>,
}

impl View for InodeNode {
    type V = Tree;

    open spec fn view(&self) -> Tree {
        self.tree()
    }
}

/// A nameless, empty directory.
pub open spec fn empty_tree() -> Tree {
    Tree { name: seq![], kind: FileKind::Dir, data: seq![], children: seq![] }
}

/// An empty directory.
pub open spec fn dir_tree(name: Seq<char>) -> Tree {
    Tree { name, kind: FileKind::Dir, data: seq![], children: seq![] }
}

/// A file.
pub open spec fn file_tree(name: Seq<char>, data: Seq<u8>) -> Tree {
    Tree { name, kind: FileKind::File, data, children: seq![] }
}

impl InodeNode {
    /// The node and everything below it.
    pub open spec fn tree(&self) -> Tree
        decreases self,
    {
        Tree {
            name: self.name@,
            kind: self.kind,
            data: self.data@,
            children: Seq::new(
                self.children@.len(),
                |i: int|
                    if 0 <= i < self.children@.len() {
                        self.children@[i].tree()
                    } else {
                        empty_tree()
                    },
            ),
        }
    }

    fn dir(name: &str) -> (r: InodeNode)
        ensures
            r@ == dir_tree(name@),
    {
        let r = InodeNode {
            name: owned(name),
            kind: FileKind::Dir,
            data: Vec::new(),
            children: Vec::new(),
        };
        assert(r@.data =~= seq![]);
        assert(r@.children =~= seq![]);
        r
    }

    /// A copy of the children; each stays shared.
    fn share_children(&self) -> (r: Vec<Arc<InodeNode>>)
        ensures
            r@ == self.children@,
    {
        let mut r: Vec<Arc<InodeNode>> = Vec::new();
        let mut i: usize = 0;
        while i < self.children.len()
            invariant
                i <= self.children@.len(),
                r@ == self.children@.take(i as int),
            decreases self.children@.len() - i,
        {
            r.push(Arc::clone(&self.children[i]));
            i = i + 1;
        }
        assert(self.children@.take(i as int) =~= self.children@);
        r
    }

    /// A copy of the node with other children.
    fn with_children(&self, children: Vec<Arc<InodeNode>>) -> (r: InodeNode)
        ensures
            r.children == children,
            r@ == (Tree { children: r@.children, ..self@ }),
    {
        let mut data: Vec<u8> = Vec::new();
        extend(&mut data, self.data.as_slice());
        assert(data@ =~= self.data@);
        InodeNode { name: self.name.clone(), kind: self.kind, data, children }
    }

    /// The names of the children.
    pub fn list_dir(&self) -> (r: Vec<String>)
        ensures
            texts(r@) == self@.children.map_values(|c: Tree| c.name),
    {
        let mut r: Vec<String> = Vec::new();
        let mut i: usize = 0;
        while i < self.children.len()
            invariant
                i <= self.children@.len(),
                r@.len() == i,
                forall|j: int| 0 <= j < i ==> (#[trigger] r@[j])@ == self@.children[j].name,
            decreases self.children@.len() - i,
        {
            assert(self@.children[i as int] == self.children@[i as int]@);
            r.push(self.children[i].name.clone());
            i = i + 1;
        }
        assert(texts(r@) =~= self@.children.map_values(|c: Tree| c.name));
        r
    }

    fn file(name: &str, data: Vec<u8>) -> (r: InodeNode)
        ensures
            r@ == file_tree(name@, data@),
    {
        let r = InodeNode { name: owned(name), kind: FileKind::File, data, children: Vec::new() };
        assert(r@.children =~= seq![]);
        r
    }
}

/// One parsed tar entry: its full path, contents, and whether it's a dir.
pub struct Entry {
    pub path: String,
    pub data: Vec<u8>,
    pub is_dir: bool,
}

/// What an [`Entry`] holds.
pub struct EntryView {
    pub path: Seq<char>,
    pub data: Seq<u8>,
    pub is_dir: bool,
}

impl View for Entry {
    type V = EntryView;

    open spec fn view(&self) -> EntryView {
        EntryView { path: self.path@, data: self.data@, is_dir: self.is_dir }
    }
}

/// The entries that a list holds.
pub open spec fn entries_view(v: Seq<Entry>) -> Seq<EntryView> {
    v.map_values(|e: Entry| e@)
}

/// The first of `children` with this name from `i` on; behind the end if there
/// is none.
pub open spec fn first_named(children: Seq<Tree>, name: Seq<char>, i: int) -> int
    decreases children.len() - i,
{
    if i >= children.len() || children[i].name == name {
        i
    } else {
        first_named(children, name, i + 1)
    }
}

/// The node that an entry becomes, under its last path component.
pub open spec fn leaf(e: EntryView, name: Seq<char>) -> Tree {
    if e.is_dir {
        dir_tree(name)
    } else {
        file_tree(name, e.data)
    }
}

/// `t` with `e` placed at `path` below it, parent directories created as needed.
/// The last component always becomes a new child.
pub open spec fn inserted(t: Tree, path: Seq<Seq<char>>, e: EntryView) -> Tree
    decreases path.len(),
{
    if path.len() == 0 {
        t
    } else if path.len() == 1 {
        Tree { children: t.children.push(leaf(e, path[0])), ..t }
    } else {
        let i = first_named(t.children, path[0], 0);
        if i < t.children.len() {
            Tree {
                children: t.children.update(i, inserted(t.children[i], path.skip(1), e)),
                ..t
            }
        } else {
            Tree {
                children: t.children.push(inserted(dir_tree(path[0]), path.skip(1), e)),
                ..t
            }
        }
    }
}

/// `t` with all entries placed below it, one after the other.
pub open spec fn filled(t: Tree, entries: Seq<EntryView>) -> Tree
    decreases entries.len(),
{
    if entries.len() == 0 {
        t
    } else {
        let e = entries.last();
        inserted(filled(t, entries.drop_last()), parts(e.path, Separator::Slash), e)
    }
}

/// The child of `dir` with this name: its index.
pub fn find_child(dir: &InodeNode, name: &String) -> (r: Option<usize>)
    ensures
        match r {
            Some(i) => i < dir@.children.len() && i == first_named(dir@.children, name@, 0),
            None => first_named(dir@.children, name@, 0) == dir@.children.len(),
        },
{
    let mut i: usize = 0;
    while i < dir.children.len()
        invariant
            i <= dir.children@.len(),
            first_named(dir@.children, name@, 0) == first_named(dir@.children, name@, i as int),
        decreases dir.children@.len() - i,
    {
        assert(dir@.children[i as int] == dir.children@[i as int]@);
        if dir.children[i].name == *name {
            return Some(i);
        }
        i = i + 1;
    }
    None
}

/// A copy of `node` with `e` placed at the path `comps`, from component `at` on.
fn insert_below(node: &InodeNode, comps: &Vec<String>, at: usize, e: &Entry) -> (r: InodeNode)
    requires
        at < comps@.len(),
    ensures
        r@ == inserted(node@, texts(comps@).skip(at as int), e@),
    decreases comps@.len() - at,
{
    let ghost path = texts(comps@).skip(at as int);
    let comp = comps[at].as_str();
    assert(path[0] == comp@);
    let mut children = node.share_children();
    if at == comps.len() - 1 {
        let child = if e.is_dir {
            InodeNode::dir(comp)
        } else {
            let mut data: Vec<u8> = Vec::new();
            extend(&mut data, e.data.as_slice());
            assert(data@ =~= e.data@);
            InodeNode::file(comp, data)
        };
        children.push(Arc::new(child));
        let r = node.with_children(children);
        assert(r@.children =~= node@.children.push(leaf(e@, path[0])));
        r
    } else {
        assert(path.skip(1) =~= texts(comps@).skip(at + 1));
        match find_child(node, &comps[at]) {
            Some(i) => {
                let child = insert_below(&node.children[i], comps, at + 1, e);
                let ghost sub = child@;
                children[i] = Arc::new(child);
                let r = node.with_children(children);
                assert(node@.children[i as int] == node.children@[i as int]@);
                assert(r@.children =~= node@.children.update(i as int, sub));
                r
            },
            None => {
                let d = InodeNode::dir(comp);
                let child = insert_below(&d, comps, at + 1, e);
                let ghost sub = child@;
                children.push(Arc::new(child));
                let r = node.with_children(children);
                assert(r@.children =~= node@.children.push(sub));
                r
            },
        }
    }
}

/// The initrd filesystem: holds the parsed root directory.
pub struct Initrd {
    pub root: Arc<InodeNode>,
}

impl View for Initrd {
    type V = Tree;

    open spec fn view(&self) -> Tree {
        self.root@
    }
}

impl Initrd {
    pub fn name(&self) -> (r: &'static str)
        ensures
            r == "initrd",
    {
        "initrd"
    }

    pub fn root(&self) -> (r: Inode)
        ensures
            r@ == InodeView::Node(self@),
    {
        Inode::Node(Arc::clone(&self.root))
    }

    /// Parse a ustar byte stream into a filesystem.
    pub fn from_tar(tar: &[u8]) -> (r: Initrd)
        ensures
            r@ == filled(dir_tree("/"@), entries_from(tar@, 0)),
    {
        let root = Initrd { root: Arc::new(InodeNode::dir("/")) };
        root.with_entries(parse(tar))
    }

    /// Place parsed entries into the tree, one after the other.
    pub fn with_entries(self, entries: Vec<Entry>) -> (r: Initrd)
        ensures
            r@ == filled(self@, entries_view(entries@)),
    {
        let mut r = self;
        let mut i: usize = 0;
        let ghost es = entries_view(entries@);
        while i < entries.len()
            invariant
                i <= entries@.len(),
                es == entries_view(entries@),
                r@ == filled(self@, es.take(i as int)),
            decreases entries@.len() - i,
        {
            assert(es.take(i + 1).drop_last() =~= es.take(i as int));
            r.insert(&entries[i]);
            i = i + 1;
        }
        assert(es.take(i as int) =~= es);
        r
    }

    /// Place one parsed entry into the tree, creating parent dirs as needed.
    pub fn insert(&mut self, e: &Entry)
        ensures
            final(self)@ == inserted(old(self)@, parts(e@.path, Separator::Slash), e@),
    {
        let chars = chars_of(e.path.as_str());
        let comps = split(chars.as_slice(), Separator::Slash);
        assert(texts(comps@).skip(0) =~= texts(comps@));
        if comps.len() == 0 {
            return;
        }
        let root = insert_below(&self.root, &comps, 0, e);
        self.root = Arc::new(root);
    }
}

/// The bytes before the first NUL.
pub open spec fn cstr(f: Seq<u8>) -> Seq<u8>
    decreases f.len(),
{
    if f.len() == 0 || f[0] == 0 {
        seq![]
    } else {
        seq![f[0]] + cstr(f.skip(1))
    }
}

/// A NUL-terminated C string within a fixed field.
pub fn read_cstr(field: &[u8]) -> (r: String)
    ensures
        r@ == lossy(cstr(field@)),
        valid_utf8(cstr(field@)) ==> r@ == decode_utf8(cstr(field@)),
{
    let mut end: usize = 0;
    assert(field@.take(0) + cstr(field@.skip(0)) =~= cstr(field@)) by {
        assert(field@.skip(0) =~= field@);
    }
    while end < field.len() && field[end] != 0
        invariant
            end <= field@.len(),
            field@.take(end as int) + cstr(field@.skip(end as int)) == cstr(field@),
        decreases field@.len() - end,
    {
        proof {
            let rest = field@.skip(end as int);
            assert(rest.skip(1) =~= field@.skip(end + 1));
            assert(field@.take(end + 1) + cstr(field@.skip(end + 1)) =~= field@.take(end as int) + (
            seq![rest[0]] + cstr(rest.skip(1))));
        }
        end = end + 1;
    }
    assert(field@.take(end as int) =~= cstr(field@));
    from_utf8_lossy(vstd::slice::slice_subrange(field, 0, end))
}

/// The number that ASCII-octal digits spell behind `acc`; spaces and NULs are
/// skipped, anything else ends the number.
pub open spec fn octal_of(f: Seq<u8>, acc: nat) -> nat
    decreases f.len(),
{
    if f.len() == 0 {
        acc
    } else if 0x30 <= f[0] <= 0x37 {
        octal_of(f.skip(1), acc * 8 + (f[0] - 0x30) as nat)
    } else if f[0] == 0x20 || f[0] == 0 {
        octal_of(f.skip(1), acc)
    } else {
        acc
    }
}

/// `8` to the power `n`.
pub open spec fn pow8(n: nat) -> nat
    decreases n,
{
    if n == 0 {
        1
    } else {
        8 * pow8((n - 1) as nat)
    }
}

proof fn lemma_octal_bound(f: Seq<u8>, acc: nat)
    ensures
        octal_of(f, acc) < (acc + 1) * pow8(f.len()),
    decreases f.len(),
{
    if f.len() > 0 {
        let d = (f[0] - 0x30) as nat;
        let p = pow8((f.len() - 1) as nat);
        if 0x30 <= f[0] <= 0x37 {
            lemma_octal_bound(f.skip(1), acc * 8 + d);
            assert((acc * 8 + d + 1) * p <= (acc + 1) * (8 * p)) by (nonlinear_arith)
                requires
                    d <= 7,
                    p >= 0,
            ;
        } else {
            lemma_octal_bound(f.skip(1), acc);
            lemma_pow8_positive((f.len() - 1) as nat);
            assert((acc + 1) * p <= (acc + 1) * (8 * p)) by (nonlinear_arith)
                requires
                    p >= 0,
            ;
            assert(acc < (acc + 1) * (8 * p)) by (nonlinear_arith)
                requires
                    p >= 1,
            ;
        }
    } else {
        assert((acc + 1) * 1 == acc + 1);
    }
}

proof fn lemma_pow8_positive(n: nat)
    ensures
        pow8(n) >= 1,
    decreases n,
{
    if n > 0 {
        lemma_pow8_positive((n - 1) as nat);
    }
}

proof fn lemma_pow8_bound(n: nat)
    requires
        n <= 21,
    ensures
        pow8(n) <= 0x8000_0000_0000_0000,
{
    reveal_with_fuel(pow8, 23);
}

/// Whether the number that the field's digits spell fits in 64 bits, as far as it is
/// read.
pub open spec fn octal_fits(f: Seq<u8>) -> bool {
    forall|n: int| 0 <= n <= f.len() ==> #[trigger] octal_of(f.take(n), 0) <= u64::MAX
}

/// Every field of up to 21 bytes fits.
pub proof fn law_short_field_fits(f: Seq<u8>)
    requires
        f.len() <= 21,
    ensures
        octal_fits(f),
{
    assert forall|n: int| 0 <= n <= f.len() implies #[trigger] octal_of(f.take(n), 0) <= u64::MAX by {
        lemma_octal_bound(f.take(n), 0);
        lemma_pow8_bound(n as nat);
        let p = pow8(n as nat);
        assert((0 + 1) * p == p) by (nonlinear_arith);
    }
}

/// Reading a start of digits, spaces and NULs, then the rest, is reading it all.
proof fn lemma_octal_split(f: Seq<u8>, i: int, acc: nat)
    requires
        0 <= i <= f.len(),
        forall|j: int| 0 <= j < i ==> 0x30 <= #[trigger] f[j] <= 0x37 || f[j] == 0x20 || f[j] == 0,
    ensures
        octal_of(f, acc) == octal_of(f.skip(i), octal_of(f.take(i), acc)),
    decreases i,
{
    if i == 0 {
        assert(f.skip(0) =~= f);
        assert(f.take(0) =~= seq![]);
    } else {
        let g = f.skip(1);
        assert(0x30 <= f[0] <= 0x37 || f[0] == 0x20 || f[0] == 0);
        assert forall|j: int| 0 <= j < i - 1 implies 0x30 <= #[trigger] g[j] <= 0x37 || g[j] == 0x20
            || g[j] == 0 by {
            assert(g[j] == f[j + 1]);
        }
        assert(g.skip(i - 1) =~= f.skip(i));
        assert(f.take(i).skip(1) =~= g.take(i - 1));
        assert(f.take(i)[0] == f[0]);
        if 0x30 <= f[0] <= 0x37 {
            lemma_octal_split(g, i - 1, acc * 8 + (f[0] - 0x30) as nat);
        } else {
            lemma_octal_split(g, i - 1, acc);
        }
    }
}

proof fn lemma_size_bound(f: Seq<u8>)
    requires
        f.len() == 12,
    ensures
        octal_of(f, 0) < 0x10_0000_0000,
        octal_fits(f),
{
    law_short_field_fits(f);
    lemma_octal_bound(f, 0);
    let p = pow8(12);
    assert(p == 0x10_0000_0000) by {
        reveal_with_fuel(pow8, 13);
    }
    assert((0 + 1) * p == p) by (nonlinear_arith);
}

/// Parse an ASCII-octal tar numeric field (ignoring trailing spaces/NULs).
pub fn octal(field: &[u8]) -> (r: u64)
    requires
        octal_fits(field@),
    ensures
        r == octal_of(field@, 0),
{
    let mut value: u64 = 0;
    let mut i: usize = 0;
    assert(field@.take(0) =~= seq![]);
    while i < field.len()
        invariant
            i <= field@.len(),
            octal_fits(field@),
            forall|j: int|
                0 <= j < i ==> 0x30 <= #[trigger] field@[j] <= 0x37 || field@[j] == 0x20 || field@[j]
                    == 0,
            value == octal_of(field@.take(i as int), 0),
        decreases field@.len() - i,
    {
        let b: u8 = field[i];
        proof {
            let start = field@.take(i + 1);
            lemma_octal_split(field@, i as int, 0);
            assert(field@.skip(i as int)[0] == b);
            lemma_octal_split(start, i as int, 0);
            assert(start.take(i as int) =~= field@.take(i as int));
            assert(start.skip(i as int) =~= seq![b]);
            assert(seq![b].skip(1) =~= seq![]);
            reveal_with_fuel(octal_of, 2);
            assert(octal_of(start, 0) <= u64::MAX);
        }
        if 0x30 <= b && b <= 0x37 {
            value = value * 8 + (b - 0x30) as u64;
        } else if b != 0x20 && b != 0 {
            return value;
        }
        i = i + 1;
    }
    assert(field@.take(i as int) =~= field@);
    value
}

/// The size that the header at `pos` gives.
pub open spec fn size_at(tar: Seq<u8>, pos: int) -> nat {
    octal_of(tar.subrange(pos + 124, pos + 136), 0)
}

/// The name that the header at `pos` gives: the text that its bytes encode, or, if
/// they encode none, one with replacement characters.
pub open spec fn name_at(tar: Seq<u8>, pos: int) -> Seq<char> {
    let name = cstr(tar.subrange(pos, pos + 100));
    if valid_utf8(name) {
        decode_utf8(name)
    } else {
        lossy(name)
    }
}

/// The entry behind the header at `pos`. A file's data ends with the archive at
/// the latest; a directory has none.
pub open spec fn entry_of(tar: Seq<u8>, pos: int, name: Seq<char>) -> EntryView {
    let is_dir = tar[pos + 156] == 0x35;
    let body = pos + BLOCK;
    let end = if body + size_at(tar, pos) < tar.len() {
        body + size_at(tar, pos)
    } else {
        tar.len() as int
    };
    EntryView {
        path: name,
        data: if is_dir {
            seq![]
        } else {
            tar.subrange(body, end)
        },
        is_dir,
    }
}

/// Where the header behind that at `pos` starts: after its data, in whole blocks.
pub open spec fn next_header(tar: Seq<u8>, pos: int) -> int {
    pos + BLOCK + (size_at(tar, pos) + 511) / 512 * 512
}

/// Whether the header at `pos` is that of a regular file (type `'0'` or NUL) or of
/// a directory (type `'5'`).
pub open spec fn file_or_dir(tar: Seq<u8>, pos: int) -> bool {
    tar[pos + 156] == 0x30 || tar[pos + 156] == 0 || tar[pos + 156] == 0x35
}

/// The entries from the header at `pos` on, up to an all-zero block or the end.
/// Headers of other types (links, devices and the like) are left out together
/// with their data, and so are those without a name.
pub open spec fn entries_from(tar: Seq<u8>, pos: int) -> Seq<EntryView>
    decreases
            if pos < tar.len() {
                tar.len() - pos
            } else {
                0
            },
{
    if pos < 0 || pos + BLOCK > tar.len() || tar[pos] == 0 {
        seq![]
    } else {
        let name = name_at(tar, pos);
        let rest = entries_from(tar, next_header(tar, pos));
        if file_or_dir(tar, pos) && name.len() > 0 {
            seq![entry_of(tar, pos, name)] + rest
        } else {
            rest
        }
    }
}

/// Read the entry behind the header at `pos`, which has this name.
pub fn read_entry(tar: &[u8], pos: usize, size: u64, name: String) -> (r: Entry)
    requires
        pos + BLOCK <= tar.len(),
        size == size_at(tar@, pos as int),
    ensures
        r@ == entry_of(tar@, pos as int, name@),
{
    let is_dir = tar[pos + 156] == 0x35;
    let body: usize = pos + BLOCK;
    let mut data: Vec<u8> = Vec::new();
    if !is_dir {
        let end: usize = if size < (tar.len() - body) as u64 {
            body + size as usize
        } else {
            tar.len()
        };
        extend(&mut data, vstd::slice::slice_subrange(tar, body, end));
        assert(data@ =~= entry_of(tar@, pos as int, name@).data);
    }
    Entry { path: name, data, is_dir }
}

/// Walk a ustar archive, returning regular-file and directory entries.
pub fn parse(tar: &[u8]) -> (out: Vec<Entry>)
    ensures
        entries_view(out@) == entries_from(tar@, 0),
{
    let mut out: Vec<Entry> = Vec::new();
    let mut pos: usize = 0;
    assert(entries_view(out@) + entries_from(tar@, 0) =~= entries_from(tar@, 0));
    while tar.len() - pos >= BLOCK && tar[pos] != 0
        invariant
            pos <= tar.len(),
            entries_view(out@) + entries_from(tar@, pos as int) == entries_from(tar@, 0),
        decreases tar.len() - pos,
    {
        let ghost before = entries_view(out@);
        let ghost p = pos as int;
        let name = read_cstr(vstd::slice::slice_subrange(tar, pos, pos + 100));
        proof {
            lemma_size_bound(tar@.subrange(p + 124, p + 136));
        }
        let size: u64 = octal(vstd::slice::slice_subrange(tar, pos + 124, pos + 136));
        let ghost n = name@;
        assert(n == name_at(tar@, p));
        let kind: u8 = tar[pos + 156];
        if (kind == 0x30 || kind == 0 || kind == 0x35) && name.as_str().unicode_len() > 0 {
            let e = read_entry(tar, pos, size, name);
            let ghost ev = e@;
            out.push(e);
            assert(entries_view(out@) =~= before.push(ev));
            assert(before.push(ev) + entries_from(tar@, next_header(tar@, p)) =~= before + (
            seq![ev] + entries_from(tar@, next_header(tar@, p))));
        }
        let rest: usize = tar.len() - pos - BLOCK;
        let padded: u64 = (size + BLOCK as u64 - 1) / BLOCK as u64 * BLOCK as u64;
        if padded > rest as u64 {
            assert(entries_from(tar@, next_header(tar@, p)) =~= seq![]);
            assert(entries_view(out@) + seq![] =~= entries_view(out@));
            return out;
        }
        pos = pos + BLOCK + padded as usize;
    }
    assert(entries_view(out@) + seq![] =~= entries_view(out@));
    out
}

/// The node at `path` below `t`, if there is one; of children with the same name
/// the first counts.
pub open spec fn found(t: Tree, path: Seq<Seq<char>>) -> Option<Tree>
    decreases path.len(),
{
    if path.len() == 0 {
        Some(t)
    } else {
        let i = first_named(t.children, path[0], 0);
        if i < t.children.len() {
            found(t.children[i], path.skip(1))
        } else {
            None
        }
    }
}

pub(crate) proof fn lemma_first_named(children: Seq<Tree>, name: Seq<char>, i: int)
    requires
        0 <= i <= children.len(),
    ensures
        i <= first_named(children, name, i) <= children.len(),
        first_named(children, name, i) < children.len() ==> children[first_named(
            children,
            name,
            i,
        )].name == name,
    decreases children.len() - i,
{
    if i < children.len() && children[i].name != name {
        lemma_first_named(children, name, i + 1);
    }
}

proof fn lemma_first_named_push(children: Seq<Tree>, c: Tree, name: Seq<char>, i: int)
    requires
        0 <= i <= children.len(),
    ensures
        first_named(children.push(c), name, i) == if first_named(children, name, i)
            < children.len() {
            first_named(children, name, i)
        } else if c.name == name {
            children.len() as int
        } else {
            children.len() as int + 1
        },
    decreases children.len() - i,
{
    if i < children.len() {
        assert(children.push(c)[i] == children[i]);
        if children[i].name != name {
            lemma_first_named_push(children, c, name, i + 1);
        }
    } else {
        assert(children.push(c)[i] == c);
        if c.name != name {
            assert(first_named(children.push(c), name, i + 1) == i + 1);
        }
    }
}

proof fn lemma_first_named_update(children: Seq<Tree>, k: int, c: Tree, name: Seq<char>, i: int)
    requires
        0 <= i <= children.len(),
        0 <= k < children.len(),
        c.name == children[k].name,
    ensures
        first_named(children.update(k, c), name, i) == first_named(children, name, i),
    decreases children.len() - i,
{
    if i < children.len() && children[i].name != name {
        lemma_first_named_update(children, k, c, name, i + 1);
    }
}

proof fn lemma_insert_keeps_node(t: Tree, path: Seq<Seq<char>>, e: EntryView)
    ensures
        inserted(t, path, e).name == t.name,
        inserted(t, path, e).kind == t.kind,
        inserted(t, path, e).data == t.data,
{
}

/// An entry that is placed at a path where nothing was is found there afterwards,
/// with its contents.
pub proof fn law_inserted_entry_is_found(t: Tree, path: Seq<Seq<char>>, e: EntryView)
    requires
        path.len() > 0,
        found(t, path) is None,
    ensures
        found(inserted(t, path, e), path) == Some(leaf(e, path.last())),
    decreases path.len(),
{
    let i = first_named(t.children, path[0], 0);
    let r = inserted(t, path, e);
    lemma_first_named(t.children, path[0], 0);
    reveal_with_fuel(found, 2);
    if path.len() == 1 {
        let c = leaf(e, path[0]);
        assert(path.skip(1) =~= seq![]);
        if i < t.children.len() {
            assert(found(t, path) == found(t.children[i], path.skip(1)));
        }
        lemma_first_named_push(t.children, c, path[0], 0);
        assert(r.children[t.children.len() as int] == c);
    } else if i < t.children.len() {
        let sub = inserted(t.children[i], path.skip(1), e);
        law_inserted_entry_is_found(t.children[i], path.skip(1), e);
        lemma_insert_keeps_node(t.children[i], path.skip(1), e);
        lemma_first_named_update(t.children, i, sub, path[0], 0);
        assert(path.skip(1).last() == path.last());
    } else {
        let d = dir_tree(path[0]);
        let sub = inserted(d, path.skip(1), e);
        assert(path.skip(1).len() > 0);
        assert(first_named(d.children, path.skip(1)[0], 0) == 0);
        assert(found(d, path.skip(1)) is None);
        law_inserted_entry_is_found(d, path.skip(1), e);
        lemma_insert_keeps_node(d, path.skip(1), e);
        lemma_first_named_push(t.children, sub, path[0], 0);
        assert(r.children[t.children.len() as int] == sub);
        assert(path.skip(1).last() == path.last());
    }
}

/// Placing an entry takes nothing away: what was found at a path before is found
/// there afterwards, with the same kind and contents.
pub proof fn law_insert_keeps_files(t: Tree, path: Seq<Seq<char>>, e: EntryView, q: Seq<Seq<char>>)
    requires
        found(t, q) is Some,
    ensures
        found(inserted(t, path, e), q) is Some,
        found(inserted(t, path, e), q)->0.kind == found(t, q)->0.kind,
        found(inserted(t, path, e), q)->0.data == found(t, q)->0.data,
    decreases path.len(),
{
    let r = inserted(t, path, e);
    lemma_insert_keeps_node(t, path, e);
    if path.len() > 0 && q.len() > 0 {
        let i = first_named(t.children, path[0], 0);
        let j = first_named(t.children, q[0], 0);
        lemma_first_named(t.children, path[0], 0);
        lemma_first_named(t.children, q[0], 0);
        if path.len() == 1 {
            lemma_first_named_push(t.children, leaf(e, path[0]), q[0], 0);
            assert(r.children[j] == t.children[j]);
        } else if i < t.children.len() {
            let sub = inserted(t.children[i], path.skip(1), e);
            lemma_insert_keeps_node(t.children[i], path.skip(1), e);
            lemma_first_named_update(t.children, i, sub, q[0], 0);
            if i == j {
                law_insert_keeps_files(t.children[i], path.skip(1), e, q.skip(1));
            }
        } else {
            let sub = inserted(dir_tree(path[0]), path.skip(1), e);
            lemma_first_named_push(t.children, sub, q[0], 0);
            assert(r.children[j] == t.children[j]);
        }
    }
}

proof fn lemma_filled_keeps(t: Tree, entries: Seq<EntryView>, n: int, q: Seq<Seq<char>>)
    requires
        0 <= n <= entries.len(),
        found(filled(t, entries.take(n)), q) is Some,
    ensures
        found(filled(t, entries), q) is Some,
        found(filled(t, entries), q)->0.kind == found(filled(t, entries.take(n)), q)->0.kind,
        found(filled(t, entries), q)->0.data == found(filled(t, entries.take(n)), q)->0.data,
    decreases entries.len() - n,
{
    if n == entries.len() {
        assert(entries.take(n) =~= entries);
    } else {
        let e = entries[n];
        assert(entries.take(n + 1).drop_last() =~= entries.take(n));
        assert(entries.take(n + 1).last() == e);
        law_insert_keeps_files(
            filled(t, entries.take(n)),
            parts(e.path, Separator::Slash),
            e,
            q,
        );
        lemma_filled_keeps(t, entries, n + 1, q);
    }
}

/// Every entry of an archive is found at its path in the tree, with its kind and
/// contents, unless an earlier entry put something at that path.
pub proof fn law_archive_entry_is_found(t: Tree, entries: Seq<EntryView>, i: int)
    requires
        0 <= i < entries.len(),
        parts(entries[i].path, Separator::Slash).len() > 0,
        found(filled(t, entries.take(i)), parts(entries[i].path, Separator::Slash)) is None,
    ensures
        ({
            let e = entries[i];
            let n = found(filled(t, entries), parts(e.path, Separator::Slash));
            &&& n is Some
            &&& n->0.kind == if e.is_dir {
                FileKind::Dir
            } else {
                FileKind::File
            }
            &&& n->0.data == if e.is_dir {
                seq![]
            } else {
                e.data
            }
        }),
{
    let e = entries[i];
    let path = parts(e.path, Separator::Slash);
    law_inserted_entry_is_found(filled(t, entries.take(i)), path, e);
    assert(entries.take(i + 1).drop_last() =~= entries.take(i));
    assert(entries.take(i + 1).last() == e);
    lemma_filled_keeps(t, entries, i + 1, path);
}

/// A field holds the bytes up to its first NUL, or all of them.
pub proof fn law_field_text(s: Seq<u8>, rest: Seq<u8>)
    requires
        forall|i: int| 0 <= i < s.len() ==> #[trigger] s[i] != 0,
        rest.len() == 0 || rest[0] == 0,
    ensures
        cstr(s + rest) == s,
    decreases s.len(),
{
    let f = s + rest;
    if s.len() > 0 {
        assert(s[0] != 0);
        assert(f.skip(1) =~= s.skip(1) + rest);
        law_field_text(s.skip(1), rest);
        assert(seq![s[0]] + s.skip(1) =~= s);
    } else {
        assert(f =~= rest);
    }
}

/// Octal fields, digit by digit: behind digits, spaces and NULs one more digit counts
/// eight times what stood before plus itself, a space or a NUL changes nothing, and
/// behind any other byte nothing counts.
pub proof fn law_octal_digits(f: Seq<u8>, b: u8, rest: Seq<u8>)
    requires
        forall|j: int| 0 <= j < f.len() ==> 0x30 <= #[trigger] f[j] <= 0x37 || f[j] == 0x20 || f[j]
            == 0,
    ensures
        octal_of(seq![], 0) == 0,
        0x30 <= b <= 0x37 ==> octal_of(f.push(b), 0) == octal_of(f, 0) * 8 + (b - 0x30),
        b == 0x20 || b == 0 ==> octal_of(f.push(b), 0) == octal_of(f, 0),
        !(0x30 <= b <= 0x37) && b != 0x20 && b != 0 ==> octal_of(f.push(b) + rest, 0) == octal_of(
            f,
            0,
        ),
{
    let g = f.push(b);
    lemma_octal_split(g, f.len() as int, 0);
    assert(g.take(f.len() as int) =~= f);
    assert(g.skip(f.len() as int) =~= seq![b]);
    assert(seq![b].skip(1) =~= seq![]);
    reveal_with_fuel(octal_of, 2);
    let h = g + rest;
    lemma_octal_split(h, f.len() as int, 0);
    assert(h.take(f.len() as int) =~= f);
    assert(h.skip(f.len() as int)[0] == b);
}

/// The value of a size field of eleven digits and a NUL or space.
proof fn lemma_size_field(f: Seq<u8>)
    requires
        f.len() == 12,
        forall|j: int| 0 <= j < 11 ==> 0x30 <= #[trigger] f[j] <= 0x37,
        f[11] == 0 || f[11] == 0x20,
    ensures
        octal_of(f, 0) == (f[0] - 0x30) * 0x4000_0000 + (f[1] - 0x30) * 0x800_0000 + (f[2] - 0x30)
            * 0x100_0000 + (f[3] - 0x30) * 0x20_0000 + (f[4] - 0x30) * 0x4_0000 + (f[5] - 0x30)
            * 0x8000 + (f[6] - 0x30) * 0x1000 + (f[7] - 0x30) * 0x200 + (f[8] - 0x30) * 0x40 + (f[9]
            - 0x30) * 8 + (f[10] - 0x30),
{
    assert(f.take(0) =~= seq![]);
    lemma_octal_take(f, 1);
    lemma_octal_take(f, 2);
    lemma_octal_take(f, 3);
    lemma_octal_take(f, 4);
    lemma_octal_take(f, 5);
    lemma_octal_take(f, 6);
    lemma_octal_take(f, 7);
    lemma_octal_take(f, 8);
    lemma_octal_take(f, 9);
    lemma_octal_take(f, 10);
    lemma_octal_take(f, 11);
    law_octal_digits(f.take(11), f[11], seq![]);
    assert(f.take(11).push(f[11]) =~= f);
}

proof fn lemma_octal_take(f: Seq<u8>, n: int)
    requires
        0 < n <= 11,
        f.len() == 12,
        forall|j: int| 0 <= j < 11 ==> 0x30 <= #[trigger] f[j] <= 0x37,
    ensures
        octal_of(f.take(n), 0) == octal_of(f.take(n - 1), 0) * 8 + (f[n - 1] - 0x30),
        octal_of(seq![], 0) == 0,
{
    let g = f.take(n - 1);
    assert(forall|j: int| 0 <= j < n - 1 ==> g[j] == f[j]);
    law_octal_digits(g, f[n - 1], seq![]);
    assert(g.push(f[n - 1]) =~= f.take(n));
}

/// What comes before a header does not change how it and what follows it are read.
proof fn lemma_entries_shift(before: Seq<u8>, tar: Seq<u8>, pos: int)
    requires
        0 <= pos,
    ensures
        entries_from(before + tar, before.len() + pos) == entries_from(tar, pos),
    decreases
            if pos < tar.len() {
                tar.len() - pos
            } else {
                0
            },
{
    let all = before + tar;
    let at = before.len() + pos;
    if pos + BLOCK <= tar.len() && tar[pos] != 0 {
        assert(all[at] == tar[pos]);
        assert(all.subrange(at, at + 100) =~= tar.subrange(pos, pos + 100));
        assert(all.subrange(at + 124, at + 136) =~= tar.subrange(pos + 124, pos + 136));
        assert(all[at + 156] == tar[pos + 156]);
        assert(next_header(all, at) == before.len() + next_header(tar, pos));
        lemma_entries_shift(before, tar, next_header(tar, pos));
        let name = name_at(tar, pos);
        assert(entry_of(all, at, name).data =~= entry_of(tar, pos, name).data);
    } else if pos + BLOCK <= tar.len() {
        assert(all[at] == tar[pos]);
    }
}

/// Whether `h` is a header block for this name, with this size and type: the name's
/// bytes, with a NUL behind them if they leave room, eleven octal digits that spell
/// the size, and the type byte.
pub open spec fn is_header(h: Seq<u8>, name: Seq<char>, size: nat, kind: u8) -> bool {
    let n = encode_utf8(name);
    &&& h.len() == 512
    &&& 1 <= n.len() <= 100
    &&& forall|i: int| 0 <= i < n.len() ==> #[trigger] n[i] != 0
    &&& forall|i: int| 0 <= i < n.len() ==> #[trigger] h[i] == n[i]
    &&& n.len() < 100 ==> h[n.len() as int] == 0
    &&& forall|i: int| 124 <= i < 135 ==> 0x30 <= #[trigger] h[i] <= 0x37
    &&& h[135] == 0 || h[135] == 0x20
    &&& size == (h[124] - 0x30) * 0x4000_0000 + (h[125] - 0x30) * 0x800_0000 + (h[126] - 0x30)
        * 0x100_0000 + (h[127] - 0x30) * 0x20_0000 + (h[128] - 0x30) * 0x4_0000 + (h[129] - 0x30)
        * 0x8000 + (h[130] - 0x30) * 0x1000 + (h[131] - 0x30) * 0x200 + (h[132] - 0x30) * 0x40 + (
    h[133] - 0x30) * 8 + (h[134] - 0x30)
    &&& h[156] == kind
}

proof fn lemma_header_is_read(h: Seq<u8>, name: Seq<char>, size: nat, kind: u8, rest: Seq<u8>)
    requires
        is_header(h, name, size, kind),
    ensures
        (h + rest)[0] != 0,
        name.len() > 0,
        name_at(h + rest, 0) == name,
        size_at(h + rest, 0) == size,
        (h + rest)[156] == kind,
{
    let tar = h + rest;
    let n = encode_utf8(name);
    let field = tar.subrange(0, 100);
    let behind = field.skip(n.len() as int);
    assert(n[0] != 0);
    assert(h[0] == n[0]);
    assert(field =~= n + behind) by {
        assert forall|i: int| 0 <= i < 100 implies field[i] == (n + behind)[i] by {
            if i < n.len() {
                assert(h[i] == n[i]);
            }
        }
    }
    if n.len() < 100 {
        assert(behind[0] == h[n.len() as int]);
    }
    law_field_text(n, behind);
    encode_utf8_valid_utf8(name);
    encode_utf8_decode_utf8(name);
    if name.len() == 0 {
        assert(n.len() == 0);
    }
    let f = tar.subrange(124, 136);
    assert forall|j: int| 0 <= j < 11 implies 0x30 <= #[trigger] f[j] <= 0x37 by {
        assert(f[j] == h[124 + j]);
    }
    assert(f[0] == h[124] && f[1] == h[125] && f[2] == h[126] && f[3] == h[127] && f[4] == h[128]
        && f[5] == h[129] && f[6] == h[130] && f[7] == h[131] && f[8] == h[132] && f[9] == h[133]
        && f[10] == h[134] && f[11] == h[135]);
    lemma_size_field(f);
}

/// What is written into an archive is read back. A header block, as many data bytes as
/// it says, and padding to a whole number of blocks give, for a regular file, an entry
/// with the header's whole name and all of the data; for a directory, an entry
/// with the name alone; and for any other type, none. Then comes what the rest of the
/// archive gives.
pub proof fn law_archive_round_trip(
    h: Seq<u8>,
    name: Seq<char>,
    kind: u8,
    data: Seq<u8>,
    padding: Seq<u8>,
    rest: Seq<u8>,
)
    requires
        is_header(h, name, data.len(), kind),
        padding.len() < 512,
        (data.len() + padding.len()) % 512 == 0,
    ensures
        kind == 0x30 || kind == 0 ==> entries_from(h + data + padding + rest, 0) == seq![
            EntryView { path: name, data, is_dir: false },
        ] + entries_from(rest, 0),
        kind == 0x35 ==> entries_from(h + data + padding + rest, 0) == seq![
            EntryView { path: name, data: seq![], is_dir: true },
        ] + entries_from(rest, 0),
        kind != 0x30 && kind != 0 && kind != 0x35 ==> entries_from(h + data + padding + rest, 0)
            == entries_from(rest, 0),
{
    let tar = h + data + padding + rest;
    let before = h + data + padding;
    assert(tar =~= h + (data + padding + rest));
    lemma_header_is_read(h, name, data.len(), kind, data + padding + rest);
    assert(next_header(tar, 0) == before.len());
    lemma_entries_shift(before, rest, 0);
    assert(entry_of(tar, 0, name).data =~= if kind == 0x35 {
        seq![]
    } else {
        data
    });
}

/// Where an archive ends: before a block that starts with a NUL, and where less than
/// a block is left.
pub proof fn law_archive_end(tar: Seq<u8>)
    requires
        tar.len() < 512 || tar[0] == 0,
    ensures
        entries_from(tar, 0) == Seq::<EntryView>::empty(),
{
}

/// A file whose data the archive cuts off keeps what is there, and ends the archive.
pub proof fn law_cut_off_data(h: Seq<u8>, name: Seq<char>, size: nat, data: Seq<u8>)
    requires
        is_header(h, name, size, 0x30),
        data.len() < size,
    ensures
        entries_from(h + data, 0) == seq![EntryView { path: name, data, is_dir: false }],
{
    let tar = h + data;
    lemma_header_is_read(h, name, size, 0x30, data);
    assert(next_header(tar, 0) >= tar.len());
    assert(entries_from(tar, next_header(tar, 0)) =~= seq![]);
    assert(entry_of(tar, 0, name).data =~= data);
    assert(seq![entry_of(tar, 0, name)] + Seq::<EntryView>::empty() =~= seq![
        entry_of(tar, 0, name),
    ]);
}

/// Looking up a name gives the first child that has it, and none only if no child
/// has it.
pub proof fn law_first_child_counts(children: Seq<Tree>, name: Seq<char>, j: int)
    requires
        0 <= j < children.len(),
        children[j].name == name,
    ensures
        0 <= first_named(children, name, 0) <= j,
        children[first_named(children, name, 0)].name == name,
        forall|i: int|
            0 <= i < first_named(children, name, 0) ==> (#[trigger] children[i]).name != name,
{
    lemma_first_named_first(children, name, 0, j);
}

proof fn lemma_first_named_first(children: Seq<Tree>, name: Seq<char>, i: int, j: int)
    requires
        0 <= i <= j < children.len(),
        children[j].name == name,
    ensures
        i <= first_named(children, name, i) <= j,
        children[first_named(children, name, i)].name == name,
        forall|k: int|
            i <= k < first_named(children, name, i) ==> (#[trigger] children[k]).name != name,
    decreases j - i,
{
    if children[i].name != name {
        lemma_first_named_first(children, name, i + 1, j);
    }
}

/// Placing an entry by its last component adds exactly one child, behind the others,
/// which has that name, the entry's kind, and a file's data.
pub proof fn law_entry_becomes_last_child(t: Tree, name: Seq<char>, e: EntryView)
    ensures
        ({
            let r = inserted(t, seq![name], e);
            &&& r.children.len() == t.children.len() + 1
            &&& r.children.take(t.children.len() as int) == t.children
            &&& r.children.last().name == name
            &&& r.children.last().children.len() == 0
            &&& (r.children.last().kind is Dir) == e.is_dir
            &&& !e.is_dir ==> r.children.last().kind is File && r.children.last().data == e.data
            &&& e.is_dir ==> r.children.last().data.len() == 0
            &&& r.name == t.name && r.kind == t.kind && r.data == t.data
        }),
{
    let r = inserted(t, seq![name], e);
    assert(seq![name][0] == name);
    assert(r.children.take(t.children.len() as int) =~= t.children);
}

} // verus!
