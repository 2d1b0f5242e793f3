//! A tiny interactive shell running as a kernel task.
//!
//! The shell reads keystrokes from `/dev/kbd` through the VFS. Built-ins reuse
//! the subsystems: `free` memory, `ps` the scheduler, `ls`/`cat` the VFS,
//! `ping`/`netstat` the network. What a command prints is handed back as text;
//! what takes time (sleeping between pings) is left to the machine.
use vstd::prelude::*;
use vstd::utf8::{
    decode_utf8, encode_utf8, encode_utf8_decode_utf8, encode_utf8_valid_utf8, is_ascii_chars,
    is_ascii_chars_encode_utf8, valid_utf8,
};
use crate::bytes::rest_from;
use crate::fs::initrd::Tree;
use crate::fs::procfs::{proc_text, ProcFile};
use crate::fs::vfs::{resolved, FsError, FsResult, Inode, InodeView};
use crate::fs::{self, law_open_takes_lowest_free, listed, VfsView};
use crate::net::ethernet::{mac_text, MacAddr};
use crate::net::ip::PROTO_UDP;
use crate::net::socket::SocketInfo;
use crate::net::icmp::{ping, pinged};
use crate::net::{self, arp, sent_frame, socket, Stack, StackView, GATEWAY, IP};
use crate::syscall::{Kernel, KernelView};
use crate::system::SystemView;
use crate::text::{
    all_digits, are_parts, chars_of, decimal, decimal_string, dotted, from_utf8, join, joined,
    law_parts_of_both_sides, law_split_undoes_join, law_valid_stretch_is_kept, left_aligned,
    lemma_aligned_words, lemma_decimal_word, lemma_dotted_word, lemma_parts_last, owned, parts,
    push_decimal, push_ip, push_left, push_readable, push_right, push_text, push_usize,
    push_utf8_or, readable, right_aligned, same_text, split, texts, utf8_or, value_of, Separator,
};

verus! {

/// The parts of `s` between dots, empty ones too.
pub open spec fn dot_fields(s: Seq<char>) -> Seq<Seq<char>>
    decreases s.len(),
{
    if s.len() == 0 {
        seq![seq![]]
    } else {
        let f = dot_fields(s.drop_last());
        if s.last() == '.' {
            f.push(seq![])
        } else {
            f.update(f.len() - 1, f.last().push(s.last()))
        }
    }
}

/// The number that decimal digits spell, if there are only digits and it is at
/// most 255.
pub open spec fn digits_value(s: Seq<char>) -> Option<int>
    decreases s.len(),
{
    if s.len() == 0 {
        Some(0)
    } else {
        match digits_value(s.drop_last()) {
            Some(v) => if '0' <= s.last() <= '9' && v * 10 + (s.last() as u32 - 0x30) <= 255 {
                Some(v * 10 + (s.last() as u32 - 0x30))
            } else {
                None
            },
            None => None,
        }
    }
}

/// The number from 0 to 255 that a text spells: at least one digit, maybe behind
/// a plus sign.
pub open spec fn octet(s: Seq<char>) -> Option<u8> {
    let digits = if s.len() > 0 && s[0] == '+' {
        s.skip(1)
    } else {
        s
    };
    match digits_value(digits) {
        Some(v) if digits.len() > 0 => Some(v as u8),
        _ => None,
    }
}

/// The address that a text spells: four numbers with dots in between.
pub open spec fn ip_of(s: Seq<char>) -> Option<[u8; 4]> {
    let f = dot_fields(s);
    if f.len() == 4 && octet(f[0]) is Some && octet(f[1]) is Some && octet(f[2]) is Some && octet(
        f[3],
    ) is Some {
        Some([octet(f[0])->0, octet(f[1])->0, octet(f[2])->0, octet(f[3])->0])
    } else {
        None
    }
}

proof fn lemma_digits_stop(s: Seq<char>, n: int)
    requires
        0 <= n <= s.len(),
        digits_value(s.take(n)) is None,
    ensures
        digits_value(s) is None,
    decreases s.len() - n,
{
    if n == s.len() {
        assert(s.take(n) =~= s);
    } else {
        assert(s.take(n + 1).drop_last() =~= s.take(n));
        lemma_digits_stop(s, n + 1);
    }
}

fn parse_octet(s: &Vec<char>) -> (r: Option<u8>)
    ensures
        r == octet(s@),
{
    let start: usize = if s.len() > 0 && s[0] == '+' {
        1
    } else {
        0
    };
    let ghost digits = s@.skip(start as int);
    assert(start == 0 ==> digits =~= s@);
    if start == s.len() {
        return None;
    }
    let mut v: u32 = 0;
    let mut i: usize = start;
    assert(digits.take(0) =~= seq![]);
    while i < s.len()
        invariant
            start <= i <= s@.len(),
            digits == s@.skip(start as int),
            digits == if s@.len() > 0 && s@[0] == '+' {
                s@.skip(1)
            } else {
                s@
            },
            v <= 255,
            digits_value(digits.take(i - start)) == Some(v as int),
        decreases s@.len() - i,
    {
        let c = s[i];
        let ghost k = i - start;
        assert(digits.take(k + 1).drop_last() =~= digits.take(k));
        assert(digits.take(k + 1).last() == c);
        if !('0' <= c && c <= '9') {
            proof {
                lemma_digits_stop(digits, k + 1);
            }
            return None;
        }
        let d: u32 = c as u32 - 0x30;
        if v * 10 + d > 255 {
            proof {
                lemma_digits_stop(digits, k + 1);
            }
            return None;
        }
        v = v * 10 + d;
        i = i + 1;
    }
    assert(digits.take(s@.len() - start) =~= digits);
    Some(v as u8)
}

/// The texts that a list of character lists holds.
pub open spec fn lists_of(v: Seq<Vec<char>>) -> Seq<Seq<char>> {
    v.map_values(|x: Vec<char>| x@)
}

fn split_dots(s: &Vec<char>) -> (r: Vec<Vec<char>>)
    ensures
        lists_of(r@) == dot_fields(s@),
{
    let mut r: Vec<Vec<char>> = Vec::new();
    let mut cur: Vec<char> = Vec::new();
    let mut i: usize = 0;
    assert(lists_of(r@).push(cur@) =~= seq![seq![]]);
    assert(s@.take(0) =~= seq![]);
    while i < s.len()
        invariant
            i <= s@.len(),
            lists_of(r@).push(cur@) == dot_fields(s@.take(i as int)),
        decreases s@.len() - i,
    {
        let c = s[i];
        let ghost before = lists_of(r@);
        let ghost old_cur = cur@;
        assert(s@.take(i + 1).drop_last() =~= s@.take(i as int));
        if c == '.' {
            r.push(cur);
            cur = Vec::new();
            assert(lists_of(r@) =~= before.push(old_cur));
            assert(lists_of(r@).push(cur@) =~= before.push(old_cur).push(seq![]));
        } else {
            cur.push(c);
            assert(before.push(cur@) =~= before.push(old_cur).update(
                before.len() as int,
                old_cur.push(c),
            ));
        }
        i = i + 1;
    }
    assert(s@.take(i as int) =~= s@);
    let ghost before = lists_of(r@);
    let ghost old_cur = cur@;
    r.push(cur);
    assert(lists_of(r@) =~= before.push(old_cur));
    r
}

/// Parse "a.b.c.d" into four octets.
pub fn parse_ip(s: &str) -> (r: Option<[u8; 4]>)
    ensures
        r == ip_of(s@),
{
    let chars = chars_of(s);
    let fields = split_dots(&chars);
    let ghost f = lists_of(fields@);
    assert(f.len() == fields@.len());
    if fields.len() != 4 {
        return None;
    }
    assert(f[0] == fields@[0]@ && f[1] == fields@[1]@ && f[2] == fields@[2]@ && f[3]
        == fields@[3]@);
    match (
        parse_octet(&fields[0]),
        parse_octet(&fields[1]),
        parse_octet(&fields[2]),
        parse_octet(&fields[3]),
    ) {
        (Some(a), Some(b), Some(c), Some(d)) => Some([a, b, c, d]),
        _ => None,
    }
}

/// The name of an error.
pub open spec fn error_text(e: FsError) -> Seq<char> {
    match e {
        FsError::NotFound => "NotFound"@,
        FsError::PermissionDenied => "PermissionDenied"@,
        FsError::NotDir => "NotDir"@,
        FsError::IsDir => "IsDir"@,
        FsError::InvalidArg => "InvalidArg"@,
        FsError::NoSpace => "NoSpace"@,
        FsError::Io => "Io"@,
    }
}

/// The name of an error.
pub fn error_name(e: FsError) -> (r: &'static str)
    ensures
        r@ == error_text(e),
{
    match e {
        FsError::NotFound => "NotFound",
        FsError::PermissionDenied => "PermissionDenied",
        FsError::NotDir => "NotDir",
        FsError::IsDir => "IsDir",
        FsError::InvalidArg => "InvalidArg",
        FsError::NoSpace => "NoSpace",
        FsError::Io => "Io",
    }
}

/// The debug form of a list of texts: `["a", "b"]`, with escapes.
pub uninterp spec fn debug_list(names: Seq<Seq<char>>) -> Seq<char>;

/// The `Debug` form that `format!` gives a list of strings.
#[verifier::external_body]
fn debug_names(names: &Vec<String>) -> (r: String)
    ensures
        r@ == debug_list(texts(names@)),
{
    format!("{:?}", names.as_slice())
}

pub open spec fn help_text() -> Seq<char> {
    "commands: help echo ls cat ps free ifconfig arp netstat ping net exit\n"@
}

/// `help`: list the built-in commands.
pub fn cmd_help() -> (r: String)
    ensures
        r@ == help_text(),
{
    owned("commands: help echo ls cat ps free ifconfig arp netstat ping net exit\n")
}

/// The line that lists a directory, whose names are `listing` in debug form.
pub open spec fn ls_line(path: Seq<char>, listing: Seq<char>) -> Seq<char> {
    path + ": "@ + listing + "\n"@
}

/// The line that lists a directory, whose names are `listing` in debug form.
pub fn list_line(path: &str, listing: &str) -> (r: String)
    ensures
        r@ == ls_line(path@, listing@),
{
    let mut r = owned(path);
    push_text(&mut r, ": ");
    push_text(&mut r, listing);
    push_text(&mut r, "\n");
    r
}

/// The line that says why a command failed on a path.
pub open spec fn failure_line(cmd: Seq<char>, path: Seq<char>, e: FsError) -> Seq<char> {
    cmd + ": "@ + path + " -> "@ + error_text(e) + "\n"@
}

fn fail_line(cmd: &str, path: &str, e: FsError) -> (r: String)
    ensures
        r@ == failure_line(cmd@, path@, e),
{
    let mut r = owned(cmd);
    push_text(&mut r, ": ");
    push_text(&mut r, path);
    push_text(&mut r, " -> ");
    push_text(&mut r, error_name(e));
    push_text(&mut r, "\n");
    r
}

/// What `ls` prints for a path.
pub open spec fn ls_text(v: VfsView, path: Seq<char>) -> Seq<char> {
    match listed(v.mounts, path) {
        Ok(names) => ls_line(path, debug_list(names)),
        Err(e) => failure_line("ls"@, path, e),
    }
}

/// `ls [path]`: list a directory (the root by default).
pub fn cmd_ls(k: &Kernel, path: Option<&str>) -> (r: String)
    ensures
        r@ == ls_text(
            k@.vfs,
            match path {
                Some(p) => p@,
                None => "/"@,
            },
        ),
{
    let path = match path {
        Some(p) => p,
        None => "/",
    };
    match fs::list_dir(&k.vfs, path) {
        Ok(names) => {
            let listing = debug_names(&names);
            list_line(path, listing.as_str())
        },
        Err(e) => fail_line("ls", path, e),
    }
}

/// Whether reading a descriptor comes to an end: it is not the endless `/dev/zero`,
/// and its contents have a length that fits an offset.
pub open spec fn finite(v: VfsView, s: SystemView, fd: int) -> bool {
    match v.file(fd) {
        Some(f) => match f.inode {
            InodeView::Zero => false,
            InodeView::Node(t) => t.data.len() <= u64::MAX,
            InodeView::Proc(p) => encode_utf8(proc_text(p, s)).len() <= u64::MAX,
            _ => true,
        },
        None => true,
    }
}

/// How much is left to read of a descriptor, as a bound on the number of reads.
pub open spec fn left(v: VfsView, s: SystemView, fd: int) -> nat {
    match v.file(fd) {
        Some(f) => match f.inode {
            InodeView::Node(t) => rest_from(t.data, f.offset).len(),
            InodeView::Proc(p) => rest_from(encode_utf8(proc_text(p, s)), f.offset).len(),
            InodeView::Kbd => s.keyboard.buffer.len(),
            InodeView::Socket(i) => match socket::open_socket(s.net.sockets, i as int) {
                Some(x) => x.rx.len(),
                None => 0,
            },
            _ => 0,
        },
        None => 0,
    }
}

/// Whether a read gave something.
pub open spec fn progressed(r: FsResult<usize>) -> bool {
    r is Ok && r->Ok_0 > 0
}

proof fn lemma_read_progresses(v: VfsView, s: SystemView, fd: int, buf: Seq<u8>)
    requires
        finite(v, s, fd),
        buf.len() <= usize::MAX,
        progressed(v.read(s, fd, buf).0),
    ensures
        finite(v.read(s, fd, buf).1, v.read(s, fd, buf).2, fd),
        left(v.read(s, fd, buf).1, v.read(s, fd, buf).2, fd) < left(v, s, fd),
        v.read(s, fd, buf).3.len() == buf.len(),
        v.read(s, fd, buf).0->Ok_0 <= buf.len(),
{
}

/// Everything that is left to read of a descriptor, read in pieces of the buffer's
/// length. With it come the tables and the system afterwards.
pub open spec fn read_out(v: VfsView, s: SystemView, fd: int, buf: Seq<u8>) -> (
    Seq<u8>,
    VfsView,
    SystemView,
)
    decreases left(v, s, fd), when finite(v, s, fd) && buf.len() <= usize::MAX via read_out_decreases
{
    let (r, w, t, b) = v.read(s, fd, buf);
    if progressed(r) {
        let (rest, x, u) = read_out(w, t, fd, b);
        (b.take(r->Ok_0 as int) + rest, x, u)
    } else {
        (seq![], w, t)
    }
}

#[via_fn]
proof fn read_out_decreases(v: VfsView, s: SystemView, fd: int, buf: Seq<u8>) {
    if progressed(v.read(s, fd, buf).0) {
        lemma_read_progresses(v, s, fd, buf);
    }
}

/// A buffer of 256 zeros.
pub open spec fn chunk() -> Seq<u8> {
    Seq::new(256, |i: int| 0u8)
}

/// Read a descriptor to its end, in pieces of 256 bytes.
fn read_to_end(k: &mut Kernel, fd: usize) -> (r: Vec<u8>)
    requires
        finite(old(k)@.vfs, old(k)@.sys, fd as int),
    ensures
        (r@, final(k)@.vfs, final(k)@.sys) == read_out(
            old(k)@.vfs,
            old(k)@.sys,
            fd as int,
            chunk(),
        ),
{
    let mut buf: Vec<u8> = vec![0u8; 256];
    assert(buf@ =~= chunk());
    let mut out: Vec<u8> = Vec::new();
    let ghost goal = read_out(k@.vfs, k@.sys, fd as int, buf@);
    assert(seq![] + goal.0 =~= goal.0);
    loop
        invariant
            finite(k@.vfs, k@.sys, fd as int),
            buf@.len() == 256,
            goal == read_out(old(k)@.vfs, old(k)@.sys, fd as int, chunk()),
            ({
                let rest = read_out(k@.vfs, k@.sys, fd as int, buf@);
                goal == (out@ + rest.0, rest.1, rest.2)
            }),
        decreases left(k@.vfs, k@.sys, fd as int),
    {
        let ghost v = k@.vfs;
        let ghost s = k@.sys;
        let ghost b = buf@;
        let ghost before = out@;
        proof {
            if progressed(v.read(s, fd as int, b).0) {
                lemma_read_progresses(v, s, fd as int, b);
            }
        }
        let r = fs::read(&mut k.vfs, &mut k.sys, fd, buf.as_mut_slice());
        match r {
            Ok(n) => {
                if n == 0 {
                    assert(out@ + seq![] =~= out@);
                    return out;
                }
                let piece = vstd::slice::slice_subrange(buf.as_slice(), 0, n);
                assert(piece@ =~= buf@.take(n as int));
                crate::bytes::extend(&mut out, piece);
                proof {
                    let rest = read_out(k@.vfs, k@.sys, fd as int, buf@);
                    assert(before + (piece@ + rest.0) =~= out@ + rest.0);
                }
            },
            Err(_) => {
                assert(out@ + seq![] =~= out@);
                return out;
            },
        }
    }
}

proof fn lemma_encoded_length(s: Seq<char>)
    ensures
        encode_utf8(s).len() <= 4 * s.len(),
    decreases s.len(),
{
    if s.len() > 0 {
        lemma_encoded_length(s.drop_first());
    }
}

proof fn lemma_decimal_length(n: nat, k: nat)
    requires
        n < pow10(k),
        k > 0,
    ensures
        decimal(n).len() <= k,
    decreases k,
{
    if n >= 10 {
        if k == 1 {
            assert(pow10(1) == 10) by {
                reveal_with_fuel(pow10, 2);
            }
        } else {
            lemma_decimal_length(n / 10, (k - 1) as nat);
        }
    }
}

/// `10` to the power `n`.
pub open spec fn pow10(n: nat) -> nat
    decreases n,
{
    if n == 0 {
        1
    } else {
        10 * pow10((n - 1) as nat)
    }
}

proof fn lemma_proc_text_length(p: ProcFile, k: Kernel)
    ensures
        encode_utf8(proc_text(p, k@.sys)).len() <= u64::MAX,
{
    let s = k@.sys;
    assert(pow10(20) == 100_000_000_000_000_000_000) by {
        reveal_with_fuel(pow10, 21);
    }
    lemma_decimal_length(s.heap.total as nat / 1024, 20);
    lemma_decimal_length(s.heap.used as nat / 1024, 20);
    lemma_decimal_length(s.heap.free as nat / 1024, 20);
    crate::memory::pmm::lemma_count_bound(s.frames.used);
    lemma_decimal_length(s.frames.free_count() as nat, 20);
    lemma_decimal_length(s.ticks as nat / 100, 20);
    reveal_strlit("MemTotal: ");
    reveal_strlit(" KiB\nMemUsed: ");
    reveal_strlit(" KiB\nMemFree: ");
    reveal_strlit(" KiB\nFreeFrames: ");
    reveal_strlit("\n");
    reveal_strlit(" seconds since boot\n");
    lemma_encoded_length(proc_text(p, s));
}

/// Every descriptor but one of `/dev/zero` can be read to its end.
proof fn lemma_finite(k: Kernel, fd: int)
    requires
        k@.vfs.file(fd) is Some ==> k@.vfs.file(fd)->0.inode !is Zero,
    ensures
        finite(k@.vfs, k@.sys, fd),
{
    if k@.vfs.file(fd) is Some {
        match k.vfs.fds@[fd]->0.inode {
            Inode::Node(n) => {
                assert(n.data.len() == n.data@.len());
            },
            Inode::Proc(p) => {
                lemma_proc_text_length(p, k);
            },
            _ => {},
        }
    }
}

/// What `cat` prints for a path, and what it leaves: the file is opened, read to
/// its end and closed. Its contents are printed as they are, with a mark in place of
/// each stretch that is not valid UTF-8.
pub open spec fn catted(k: KernelView, path: Seq<char>) -> (Seq<char>, KernelView) {
    let (r, v) = k.vfs.opened(resolved(k.vfs.mounts, path));
    match r {
        Ok(fd) => {
            let (bytes, w, s) = read_out(v, k.sys, fd as int, chunk());
            (readable(bytes, "<binary>"@), KernelView { vfs: w.closed(fd as int).1, sys: s })
        },
        Err(e) => (failure_line("cat"@, path, e), k),
    }
}

/// Whether `cat` of a path never ends: it is `/dev/zero`, and there is a
/// descriptor for it.
pub open spec fn endless(k: KernelView, path: Seq<char>) -> bool {
    resolved(k.vfs.mounts, path) == Ok::<InodeView, FsError>(InodeView::Zero) && k.vfs.opened(
        resolved(k.vfs.mounts, path),
    ).0 is Ok
}

/// `cat path`: open, read to the end, print the contents as they are, with a mark
/// in place of each stretch that is not text.
pub fn cmd_cat(k: &mut Kernel, path: &str) -> (r: String)
    requires
        old(k)@.wf(),
        !endless(old(k)@, path@),
    ensures
        (r@, final(k)@) == catted(old(k)@, path@),
{
    let ghost before = k@;
    match fs::open(&mut k.vfs, path) {
        Ok(fd) => {
            proof {
                law_open_takes_lowest_free(
                    before.vfs,
                    resolved(before.vfs.mounts, path@)->Ok_0,
                    0,
                );
            }
            assert(k@.vfs.file(fd as int)->0.inode == resolved(before.vfs.mounts, path@)->Ok_0);
            proof {
                lemma_finite(*k, fd as int);
            }
            let bytes = read_to_end(k, fd);
            let _ = fs::close(&mut k.vfs, fd);
            let mut r = String::new();
            push_readable(&mut r, bytes.as_slice(), "<binary>");
            assert(r@ =~= readable(bytes@, "<binary>"@));
            r
        },
        Err(e) => fail_line("cat", path, e),
    }
}

/// One line of `ps`.
pub open spec fn ps_line(task: (u32, &'static str)) -> Seq<char> {
    "  "@ + decimal(task.0 as nat) + " "@ + task.1@ + "\n"@
}

/// What `ps` prints.
pub open spec fn ps_text(tasks: Seq<(u32, &'static str)>) -> Seq<char>
    decreases tasks.len(),
{
    if tasks.len() == 0 {
        "[pid] state\n"@
    } else {
        ps_text(tasks.drop_last()) + ps_line(tasks.last())
    }
}

/// `ps`: print a snapshot of the tasks (identifier and state).
pub fn cmd_ps(tasks: &[(u32, &'static str)]) -> (r: String)
    ensures
        r@ == ps_text(tasks@),
{
    let mut r = owned("[pid] state\n");
    let mut i: usize = 0;
    assert(tasks@.take(0) =~= seq![]);
    while i < tasks.len()
        invariant
            i <= tasks@.len(),
            r@ == ps_text(tasks@.take(i as int)),
        decreases tasks@.len() - i,
    {
        assert(tasks@.take(i + 1).drop_last() =~= tasks@.take(i as int));
        let mut line = owned("  ");
        push_decimal(&mut line, tasks[i].0 as u64);
        push_text(&mut line, " ");
        push_text(&mut line, tasks[i].1);
        push_text(&mut line, "\n");
        push_text(&mut r, line.as_str());
        i = i + 1;
    }
    assert(tasks@.take(i as int) =~= tasks@);
    r
}

/// What `free` prints.
pub open spec fn free_text(s: SystemView) -> Seq<char> {
    let frames = s.frames.free_count() as nat;
    "heap used="@ + decimal(s.heap.used as nat / 1024) + " KiB free="@ + decimal(
        s.heap.free as nat / 1024,
    ) + " KiB | physical free frames="@ + decimal(frames) + " ("@ + decimal(frames * 4 / 1024)
        + " MiB)\n"@
}

/// `free`: print how full the kernel heap is and how many frames are free.
pub fn cmd_free(k: &Kernel) -> (r: String)
    ensures
        r@ == free_text(k@.sys),
{
    let frames: usize = k.sys.frames.free_count();
    proof {
        crate::memory::pmm::lemma_count_bound(k@.sys.frames.used);
    }
    let mut r = owned("heap used=");
    push_usize(&mut r, k.sys.heap.used / 1024);
    push_text(&mut r, " KiB free=");
    push_usize(&mut r, k.sys.heap.free / 1024);
    push_text(&mut r, " KiB | physical free frames=");
    push_usize(&mut r, frames);
    push_text(&mut r, " (");
    push_usize(&mut r, frames * 4 / 1024);
    push_text(&mut r, " MiB)\n");
    r
}

/// A MAC address as text.
pub open spec fn mac_chars(m: MacAddr) -> Seq<char> {
    utf8_or(mac_text(m.0@), "?"@)
}

/// What `ifconfig` prints.
pub open spec fn ifconfig_text(s: StackView) -> Seq<char> {
    "e1000: ip="@ + dotted(IP@) + " gw="@ + dotted(GATEWAY@) + " mac="@ + mac_chars(s.our_mac())
        + "\n"@
}

/// `ifconfig`: print the addresses of the card.
pub fn cmd_ifconfig(k: &Kernel) -> (r: String)
    ensures
        r@ == ifconfig_text(k@.sys.net),
{
    let mac = net::our_mac(&k.sys.net);
    let mut r = owned("e1000: ip=");
    push_ip(&mut r, IP);
    push_text(&mut r, " gw=");
    push_ip(&mut r, GATEWAY);
    push_text(&mut r, " mac=");
    let bytes = mac.fmt();
    push_utf8_or(&mut r, bytes.as_slice(), "?");
    push_text(&mut r, "\n");
    r
}

/// One line of `arp`.
pub open spec fn arp_line(b: ([u8; 4], MacAddr)) -> Seq<char> {
    "  "@ + dotted(b.0@) + " -> "@ + mac_chars(b.1) + "\n"@
}

/// The lines of `arp` for some bindings.
pub open spec fn arp_lines(t: Seq<([u8; 4], MacAddr)>) -> Seq<char>
    decreases t.len(),
{
    if t.len() == 0 {
        seq![]
    } else {
        arp_lines(t.drop_last()) + arp_line(t.last())
    }
}

/// What `arp` prints.
pub open spec fn arp_text(s: StackView) -> Seq<char> {
    let t = arp::table_of(s.cache);
    if t.len() == 0 {
        "arp cache empty\n"@
    } else {
        arp_lines(t)
    }
}

/// `arp -a`: print the ARP cache.
pub fn cmd_arp(k: &Kernel) -> (r: String)
    ensures
        r@ == arp_text(k@.sys.net),
{
    let t = arp::table(&k.sys.net.cache);
    if t.len() == 0 {
        return owned("arp cache empty\n");
    }
    let mut r = String::new();
    let mut i: usize = 0;
    assert(t@.take(0) =~= seq![]);
    while i < t.len()
        invariant
            i <= t@.len(),
            r@ == arp_lines(t@.take(i as int)),
        decreases t@.len() - i,
    {
        assert(t@.take(i + 1).drop_last() =~= t@.take(i as int));
        let mut line = owned("  ");
        push_ip(&mut line, t[i].0);
        push_text(&mut line, " -> ");
        let bytes = t[i].1.fmt();
        push_utf8_or(&mut line, bytes.as_slice(), "?");
        push_text(&mut line, "\n");
        push_text(&mut r, line.as_str());
        i = i + 1;
    }
    assert(t@.take(i as int) =~= t@);
    r
}

/// A peer as text; a dash if there is none.
pub open spec fn peer_text(peer: Option<([u8; 4], u16)>) -> Seq<char> {
    match peer {
        Some((ip, port)) => dotted(ip@) + ":"@ + decimal(port as nat),
        None => "-"@,
    }
}

fn peer_string(peer: Option<([u8; 4], u16)>) -> (r: String)
    ensures
        r@ == peer_text(peer),
{
    match peer {
        Some((ip, port)) => {
            let mut r = String::new();
            push_ip(&mut r, ip);
            push_text(&mut r, ":");
            push_decimal(&mut r, port as u64);
            assert(r@ =~= peer_text(peer));
            r
        },
        None => owned("-"),
    }
}

/// One line of `netstat`.
pub open spec fn netstat_line(s: SocketInfo) -> Seq<char> {
    "  "@ + (if s.1 == PROTO_UDP {
        "udp"@
    } else {
        "tcp"@
    }) + " "@ + right_aligned(decimal(s.0 as nat), 4) + " "@ + right_aligned(
        decimal(s.2 as nat),
        5,
    ) + " "@ + left_aligned(peer_text(s.3), 15) + " "@ + decimal(s.4 as nat) + "\n"@
}

/// What `netstat` prints for some sockets.
pub open spec fn netstat_text(info: Seq<SocketInfo>) -> Seq<char>
    decreases info.len(),
{
    if info.len() == 0 {
        "  proto  local  peer            queue\n"@
    } else {
        netstat_text(info.drop_last()) + netstat_line(info.last())
    }
}

fn netstat_string(s: SocketInfo) -> (r: String)
    ensures
        r@ == netstat_line(s),
{
    let (idx, proto, port, peer, queued) = s;
    let mut r = owned("  ");
    if proto == PROTO_UDP {
        push_text(&mut r, "udp");
    } else {
        push_text(&mut r, "tcp");
    }
    push_text(&mut r, " ");
    let idx_text = decimal_string(idx as u64);
    push_right(&mut r, idx_text.as_str(), 4);
    push_text(&mut r, " ");
    let port_text = decimal_string(port as u64);
    push_right(&mut r, port_text.as_str(), 5);
    push_text(&mut r, " ");
    let peer_s = peer_string(peer);
    push_left(&mut r, peer_s.as_str(), 15);
    push_text(&mut r, " ");
    push_decimal(&mut r, queued as u64);
    push_text(&mut r, "\n");
    r
}

/// `netstat`: print the socket table (protocol, local port, peer, queue).
pub fn cmd_netstat(k: &Kernel) -> (r: String)
    ensures
        r@ == netstat_text(socket::info_of(k@.sys.net.sockets)),
{
    let info = socket::info(&k.sys.net.sockets);
    let mut r = owned("  proto  local  peer            queue\n");
    let mut i: usize = 0;
    assert(info@.take(0) =~= seq![]);
    while i < info.len()
        invariant
            i <= info@.len(),
            r@ == netstat_text(info@.take(i as int)),
        decreases info@.len() - i,
    {
        assert(info@.take(i + 1).drop_last() =~= info@.take(i as int));
        let line = netstat_string(info[i]);
        push_text(&mut r, line.as_str());
        i = i + 1;
    }
    assert(info@.take(i as int) =~= info@);
    r
}

/// What one command line leads to.
pub enum Reply {
    /// Nothing was typed.
    Nothing,
    /// Print this text.
    Print(String),
    /// Ping this address.
    Ping([u8; 4]),
    /// Run the self test of the network stack.
    NetDemo,
    /// Leave the shell.
    Quit,
}

/// What a [`Reply`] says.
pub enum ReplyView {
    Nothing,
    Print(Seq<char>),
    Ping([u8; 4]),
    NetDemo,
    Quit,
}

impl View for Reply {
    type V = ReplyView;

    open spec fn view(&self) -> ReplyView {
        match self {
            Reply::Nothing => ReplyView::Nothing,
            Reply::Print(s) => ReplyView::Print(s@),
            Reply::Ping(ip) => ReplyView::Ping(*ip),
            Reply::NetDemo => ReplyView::NetDemo,
            Reply::Quit => ReplyView::Quit,
        }
    }
}

/// The words of a command line; one that is not valid UTF-8 has none.
pub open spec fn words_of(line: Seq<u8>) -> Seq<Seq<char>> {
    parts(utf8_or(line, ""@), Separator::Whitespace)
}

/// What a command with arguments (its words) replies and leaves.
pub open spec fn replied(k: KernelView, tasks: Seq<(u32, &'static str)>, words: Seq<Seq<char>>) -> (
    ReplyView,
    KernelView,
) {
    if words.len() == 0 {
        (ReplyView::Nothing, k)
    } else {
        let cmd = words[0];
        let has_arg = words.len() > 1;
        if cmd == "help"@ {
            (ReplyView::Print(help_text()), k)
        } else if cmd == "echo"@ {
            (ReplyView::Print(joined(words.skip(1), " "@) + "\n"@), k)
        } else if cmd == "ls"@ {
            (
                ReplyView::Print(
                    ls_text(
                        k.vfs,
                        if has_arg {
                            words[1]
                        } else {
                            "/"@
                        },
                    ),
                ),
                k,
            )
        } else if cmd == "cat"@ {
            if has_arg {
                (ReplyView::Print(catted(k, words[1]).0), catted(k, words[1]).1)
            } else {
                (ReplyView::Print("cat: missing operand\n"@), k)
            }
        } else if cmd == "ps"@ {
            (ReplyView::Print(ps_text(tasks)), k)
        } else if cmd == "free"@ {
            (ReplyView::Print(free_text(k.sys)), k)
        } else if cmd == "ifconfig"@ {
            (ReplyView::Print(ifconfig_text(k.sys.net)), k)
        } else if cmd == "arp"@ {
            (ReplyView::Print(arp_text(k.sys.net)), k)
        } else if cmd == "netstat"@ {
            (ReplyView::Print(netstat_text(socket::info_of(k.sys.net.sockets))), k)
        } else if cmd == "ping"@ {
            if has_arg && ip_of(words[1]) is Some {
                (ReplyView::Ping(ip_of(words[1])->0), k)
            } else {
                (ReplyView::Print("usage: ping a.b.c.d\n"@), k)
            }
        } else if cmd == "net"@ {
            (ReplyView::NetDemo, k)
        } else if cmd == "exit"@ || cmd == "quit"@ {
            (ReplyView::Quit, k)
        } else {
            (ReplyView::Print(cmd + ": command not found (try 'help')\n"@), k)
        }
    }
}

/// Whether a command line never comes to an end.
pub open spec fn runs_forever(k: KernelView, words: Seq<Seq<char>>) -> bool {
    words.len() > 1 && words[0] == "cat"@ && endless(k, words[1])
}

/// The words of a command line.
pub fn words(line: &[u8]) -> (r: Vec<String>)
    ensures
        texts(r@) == words_of(line@),
{
    let text = match from_utf8(line) {
        Ok(s) => s,
        Err(_) => "",
    };
    let chars = chars_of(text);
    split(chars.as_slice(), Separator::Whitespace)
}

/// Whether [`eval`] would never come to an end on this command line.
pub fn would_run_forever(k: &Kernel, line: &[u8]) -> (r: bool)
    ensures
        r == runs_forever(k@, words_of(line@)),
{
    let w = words(line);
    let ghost ws = texts(w@);
    assert(ws.len() == w@.len());
    if w.len() < 2 || !same_text(w[0].as_str(), "cat") {
        return false;
    }
    assert(ws[1] == w@[1]@);
    match fs::vfs::resolve(&k.vfs.mounts, w[1].as_str()) {
        Ok(Inode::Zero) => fs::has_free_fd(&k.vfs),
        _ => false,
    }
}

/// Run one command line.
pub fn eval(k: &mut Kernel, tasks: &[(u32, &'static str)], line: &[u8]) -> (r: Reply)
    requires
        old(k)@.wf(),
        !runs_forever(old(k)@, words_of(line@)),
    ensures
        (r@, final(k)@) == replied(old(k)@, tasks@, words_of(line@)),
{
    let w = words(line);
    let ghost ws = texts(w@);
    assert(ws.len() == w@.len());
    if w.len() == 0 {
        return Reply::Nothing;
    }
    assert(ws[0] == w@[0]@);
    let cmd = w[0].as_str();
    let arg: Option<&str> = if w.len() > 1 {
        assert(ws[1] == w@[1]@);
        Some(w[1].as_str())
    } else {
        None
    };
    if same_text(cmd, "help") {
        Reply::Print(cmd_help())
    } else if same_text(cmd, "echo") {
        let mut text = join(&w, 1);
        push_text(&mut text, "\n");
        Reply::Print(text)
    } else if same_text(cmd, "ls") {
        Reply::Print(cmd_ls(k, arg))
    } else if same_text(cmd, "cat") {
        match arg {
            Some(path) => Reply::Print(cmd_cat(k, path)),
            None => Reply::Print(owned("cat: missing operand\n")),
        }
    } else if same_text(cmd, "ps") {
        Reply::Print(cmd_ps(tasks))
    } else if same_text(cmd, "free") {
        Reply::Print(cmd_free(k))
    } else if same_text(cmd, "ifconfig") {
        Reply::Print(cmd_ifconfig(k))
    } else if same_text(cmd, "arp") {
        Reply::Print(cmd_arp(k))
    } else if same_text(cmd, "netstat") {
        Reply::Print(cmd_netstat(k))
    } else if same_text(cmd, "ping") {
        let dst = match arg {
            Some(a) => parse_ip(a),
            None => None,
        };
        match dst {
            Some(ip) => Reply::Ping(ip),
            None => Reply::Print(owned("usage: ping a.b.c.d\n")),
        }
    } else if same_text(cmd, "net") {
        Reply::NetDemo
    } else if same_text(cmd, "exit") || same_text(cmd, "quit") {
        Reply::Quit
    } else {
        let mut text = owned(cmd);
        push_text(&mut text, ": command not found (try 'help')\n");
        Reply::Print(text)
    }
}

/// Pings that one command sends.
pub const PINGS: u16 = 3;

/// Ticks to wait for the answer to a ping.
pub const PING_TICKS: u64 = 5;

/// The stack once a ping command was started: the gateway is asked for if the
/// destination is not known, and the first request is sent.
pub open spec fn ping_started(s: StackView, dst: [u8; 4]) -> StackView {
    let asked = if arp::binding(s.cache, dst) is None {
        arp::requested(s, GATEWAY)
    } else {
        s
    };
    pinged(asked, dst, 1)
}

/// Start `ping a.b.c.d`: send the first of three requests. Returns how long to
/// sleep before [`ping_next`].
pub fn cmd_ping(s: &mut Stack, dst: [u8; 4]) -> (ticks: u64)
    ensures
        ticks == PING_TICKS,
        ticks == 5,
        final(s)@ == ping_started(old(s)@, dst),
{
    if arp::lookup(&s.cache, dst).is_none() {
        arp::request(s, GATEWAY);
    }
    ping(s, dst, 1);
    PING_TICKS
}

/// Go on after the sleep that followed request `seq`: handle what was received,
/// and send the next request if there is one. Returns how long to sleep then.
pub fn ping_next(s: &mut Stack, dst: [u8; 4], seq: u16) -> (ticks: Option<u64>)
    requires
        old(s)@.ring_ok(),
    ensures
        ({
            let pumped = old(s)@.pumped(net::PUMP_LIMIT as nat).0;
            if seq < PINGS {
                ticks == Some(PING_TICKS) && final(s)@ == pinged(pumped, dst, (seq + 1) as u16)
            } else {
                ticks is None && final(s)@ == pumped
            }
        }),
        seq < 3 <==> ticks == Some(5u64),
{
    net::pump(s);
    if seq < PINGS {
        ping(s, dst, seq + 1);
        Some(PING_TICKS)
    } else {
        None
    }
}

/// What typing does to a command line: the line, what is left of the input, and
/// whether the line is complete. Input is taken up to the end of a line;
/// backspace takes back a character, and only printable ASCII is kept.
pub open spec fn edited(line: Seq<u8>, input: Seq<u8>) -> (Seq<u8>, Seq<u8>, bool)
    decreases input.len(),
{
    if input.len() == 0 {
        (line, input, false)
    } else {
        let b = input[0];
        let rest = input.skip(1);
        if b == 0x0a || b == 0x0d {
            (line, rest, true)
        } else if b == 0x08 {
            edited(
                if line.len() > 0 {
                    line.drop_last()
                } else {
                    line
                },
                rest,
            )
        } else if 0x20 <= b < 0x7f {
            edited(line.push(b), rest)
        } else {
            edited(line, rest)
        }
    }
}

/// Polls without input after which the shell gives up.
pub const IDLE_LIMIT: usize = 200;

/// Bytes that one poll reads.
pub const POLL_BYTES: usize = 32;

/// Ticks between polls.
pub const POLL_TICKS: u64 = 2;

/// An interactive session: the keyboard's descriptor, the line so far, input that
/// was read but not used yet, and polls in a row that gave nothing.
pub struct Shell {
    pub fd: usize,
    pub line: Vec<u8>,
    pub input: Vec<u8>,
    pub idle: usize,
    /// Whether the last step asked for a sleep.
    pub slept: bool,
}

/// The state of a [`Shell`].
#[verifier::ext_equal]
pub struct ShellView {
    pub fd: usize,
    pub line: Seq<u8>,
    pub input: Seq<u8>,
    pub idle: int,
    pub slept: bool,
}

impl View for Shell {
    type V = ShellView;

    open spec fn view(&self) -> ShellView {
        ShellView {
            fd: self.fd,
            line: self.line@,
            input: self.input@,
            idle: self.idle as int,
            slept: self.slept,
        }
    }
}

/// What a session does next.
pub enum ShellStep {
    /// Go on.
    More,
    /// Sleep for so many ticks, then go on.
    Sleep(u64),
    /// A line was entered: print the prompt, then do what the reply says, and go
    /// on unless it says to quit.
    Ran(Reply),
    /// There was no input for long: the session is over.
    Idle,
}

/// What a [`ShellStep`] says.
pub enum StepView {
    More,
    Sleep(u64),
    Ran(ReplyView),
    Idle,
}

impl View for ShellStep {
    type V = StepView;

    open spec fn view(&self) -> StepView {
        match self {
            ShellStep::More => StepView::More,
            ShellStep::Sleep(t) => StepView::Sleep(*t),
            ShellStep::Ran(r) => StepView::Ran(r@),
            ShellStep::Idle => StepView::Idle,
        }
    }
}

/// A buffer for one poll.
pub open spec fn poll_buffer() -> Seq<u8> {
    Seq::new(32, |i: int| 0u8)
}

impl ShellView {
    /// A session over a descriptor, before any input.
    pub open spec fn start(fd: usize) -> ShellView {
        ShellView { fd, line: seq![], input: seq![], idle: 0, slept: false }
    }

    pub open spec fn wf(self) -> bool {
        0 <= self.idle <= IDLE_LIMIT + 1 && (self.idle > IDLE_LIMIT ==> self.slept)
    }

    /// Whether the session is over for want of input.
    pub open spec fn given_up(self) -> bool {
        self.slept && self.idle > IDLE_LIMIT
    }

    /// The line that the input at hand completes, if it does.
    pub open spec fn entered(self) -> Option<Seq<u8>> {
        let (line, _, complete) = edited(self.line, self.input);
        if complete {
            Some(line)
        } else {
            None
        }
    }

    /// What the next step does, without input at hand: the keyboard is polled.
    pub open spec fn polled(self, k: KernelView) -> (StepView, ShellView, KernelView) {
        let (r, vfs, sys, b) = k.vfs.read(k.sys, self.fd as int, poll_buffer());
        let n = if r is Ok {
            r->Ok_0
        } else {
            0
        };
        if n == 0 {
            (
                StepView::Sleep(POLL_TICKS),
                ShellView { idle: self.idle + 1, slept: true, ..self },
                KernelView { vfs, sys },
            )
        } else {
            (
                StepView::More,
                ShellView { idle: 0, slept: false, input: b.take(n as int), ..self },
                KernelView { vfs, sys },
            )
        }
    }

    /// What the next step does with input at hand: the line is edited, and run
    /// when it is complete.
    pub open spec fn typed(self, k: KernelView, tasks: Seq<(u32, &'static str)>) -> (
        StepView,
        ShellView,
        KernelView,
    ) {
        let (line, rest, complete) = edited(self.line, self.input);
        if complete {
            let (reply, after) = replied(k, tasks, words_of(line));
            (
                StepView::Ran(reply),
                ShellView { line: seq![], input: rest, ..self },
                if reply is Quit {
                    KernelView { vfs: after.vfs.closed(self.fd as int).1, ..after }
                } else {
                    after
                },
            )
        } else {
            (StepView::More, ShellView { line, input: rest, ..self }, k)
        }
    }

    /// What the next step does.
    pub open spec fn stepped(self, k: KernelView, tasks: Seq<(u32, &'static str)>) -> (
        StepView,
        ShellView,
        KernelView,
    ) {
        if self.given_up() {
            (
                StepView::Idle,
                ShellView { idle: 0, slept: false, ..self },
                KernelView { vfs: k.vfs.closed(self.fd as int).1, ..k },
            )
        } else if self.input.len() > 0 {
            self.typed(k, tasks)
        } else {
            self.polled(k)
        }
    }
}

impl Shell {
    /// Open the keyboard and start a session.
    pub fn open(k: &mut Kernel) -> (r: FsResult<Shell>)
        ensures
            ({
                let (fd, vfs) = old(k)@.vfs.opened(resolved(old(k)@.vfs.mounts, "/dev/kbd"@));
                &&& final(k)@ == (KernelView { vfs, ..old(k)@ })
                &&& match fd {
                    Ok(fd) => r is Ok && r->Ok_0@ == ShellView::start(fd) && r->Ok_0@.wf(),
                    Err(e) => r == Err::<Shell, FsError>(e),
                }
            }),
    {
        match fs::open(&mut k.vfs, "/dev/kbd") {
            Ok(fd) => {
                let s = Shell { fd, line: Vec::new(), input: Vec::new(), idle: 0, slept: false };
                assert(s@ =~= ShellView::start(fd));
                Ok(s)
            },
            Err(e) => Err(e),
        }
    }

    /// Take input up to the end of a line; whether the line is complete.
    fn edit(&mut self) -> (r: bool)
        ensures
            ({
                let (line, rest, complete) = edited(old(self)@.line, old(self)@.input);
                r == complete && final(self)@ == (ShellView { line, input: rest, ..old(self)@ })
            }),
    {
        let ghost goal = edited(self@.line, self@.input);
        let mut i: usize = 0;
        assert(self@.input.skip(0) =~= self@.input);
        while i < self.input.len()
            invariant
                i <= self.input@.len(),
                goal == edited(self@.line, self@.input.skip(i as int)),
                self@ == (ShellView { line: self@.line, ..old(self)@ }),
                goal == edited(old(self)@.line, old(self)@.input),
            decreases self.input@.len() - i,
        {
            let b: u8 = self.input[i];
            assert(self@.input.skip(i as int)[0] == b);
            assert(self@.input.skip(i as int).skip(1) =~= self@.input.skip(i + 1));
            i = i + 1;
            if b == 0x0a || b == 0x0d {
                self.drop_input(i);
                return true;
            } else if b == 0x08 {
                let ghost before = self@.line;
                let _ = self.line.pop();
                assert(self@.line =~= if before.len() > 0 {
                    before.drop_last()
                } else {
                    before
                });
            } else if b >= 0x20 && b < 0x7f {
                self.line.push(b);
            }
        }
        self.drop_input(i);
        false
    }

    /// Forget the first `n` bytes of the input.
    fn drop_input(&mut self, n: usize)
        requires
            n <= old(self)@.input.len(),
        ensures
            final(self)@ == (ShellView { input: old(self)@.input.skip(n as int), ..old(self)@ }),
    {
        let mut rest: Vec<u8> = Vec::new();
        crate::bytes::extend(
            &mut rest,
            vstd::slice::slice_subrange(self.input.as_slice(), n, self.input.len()),
        );
        self.input = rest;
        assert(self@.input =~= old(self)@.input.skip(n as int));
    }

    /// Poll the keyboard.
    fn poll(&mut self, k: &mut Kernel) -> (r: ShellStep)
        requires
            old(self)@.wf(),
            !old(self)@.given_up(),
        ensures
            final(self)@.wf(),
            (r@, final(self)@, final(k)@) == old(self)@.polled(old(k)@),
    {
        let mut buf: Vec<u8> = vec![0u8; 32];
        assert(buf@ =~= poll_buffer());
        let n: usize = match fs::read(&mut k.vfs, &mut k.sys, self.fd, buf.as_mut_slice()) {
            Ok(n) => n,
            Err(_) => 0,
        };
        proof {
            fs::lemma_read_fits(old(k)@.vfs, old(k)@.sys, self.fd as int, poll_buffer());
        }
        if n == 0 {
            self.idle = self.idle + 1;
            self.slept = true;
            return ShellStep::Sleep(POLL_TICKS);
        }
        buf.truncate(n);
        self.idle = 0;
        self.slept = false;
        self.input = buf;
        assert(self@ =~= old(self)@.polled(old(k)@).1);
        ShellStep::More
    }

    /// The line that the input at hand completes, if it does.
    pub fn peek(&self) -> (r: Option<Vec<u8>>)
        ensures
            match r {
                Some(l) => self@.entered() == Some(l@),
                None => self@.entered() is None,
            },
    {
        let mut line: Vec<u8> = Vec::new();
        crate::bytes::extend(&mut line, self.line.as_slice());
        assert(line@ =~= self.line@);
        let mut i: usize = 0;
        assert(self@.input.skip(0) =~= self@.input);
        while i < self.input.len()
            invariant
                i <= self.input@.len(),
                edited(self@.line, self@.input).0 == edited(line@, self@.input.skip(i as int)).0,
                edited(self@.line, self@.input).2 == edited(line@, self@.input.skip(i as int)).2,
            decreases self.input@.len() - i,
        {
            let b: u8 = self.input[i];
            assert(self@.input.skip(i as int)[0] == b);
            assert(self@.input.skip(i as int).skip(1) =~= self@.input.skip(i + 1));
            i = i + 1;
            if b == 0x0a || b == 0x0d {
                return Some(line);
            } else if b == 0x08 {
                let ghost before = line@;
                let _ = line.pop();
                assert(line@ =~= if before.len() > 0 {
                    before.drop_last()
                } else {
                    before
                });
            } else if b >= 0x20 && b < 0x7f {
                line.push(b);
            }
        }
        None
    }
}

/// Carry the session on by one step.
pub fn run(sh: &mut Shell, k: &mut Kernel, tasks: &[(u32, &'static str)]) -> (r: ShellStep)
    requires
        old(sh)@.wf(),
        old(k)@.wf(),
        old(sh)@.entered() is Some && !old(sh)@.given_up() ==> !runs_forever(
            old(k)@,
            words_of(old(sh)@.entered()->0),
        ),
    ensures
        final(sh)@.wf(),
        (r@, final(sh)@, final(k)@) == old(sh)@.stepped(old(k)@, tasks@),
{
    if sh.slept && sh.idle > IDLE_LIMIT {
        let _ = fs::close(&mut k.vfs, sh.fd);
        sh.idle = 0;
        sh.slept = false;
        return ShellStep::Idle;
    }
    if sh.input.len() == 0 {
        return sh.poll(k);
    }
    if !sh.edit() {
        return ShellStep::More;
    }
    let reply = eval(k, tasks, sh.line.as_slice());
    if let Reply::Quit = reply {
        let _ = fs::close(&mut k.vfs, sh.fd);
    }
    sh.line.clear();
    assert(sh@.line =~= seq![]);
    ShellStep::Ran(reply)
}

/// Whether every byte is printable ASCII.
pub open spec fn printable(text: Seq<u8>) -> bool {
    forall|i: int| 0 <= i < text.len() ==> 0x20 <= #[trigger] text[i] < 0x7f
}

/// Printable text followed by the end of a line is entered behind what the line
/// held, and nothing after it is used.
pub proof fn law_typed_text_is_entered(line: Seq<u8>, text: Seq<u8>, rest: Seq<u8>)
    requires
        printable(text),
    ensures
        edited(line, text + seq![0x0au8] + rest) == (line + text, rest, true),
    decreases text.len(),
{
    let input = text + seq![0x0au8] + rest;
    if text.len() == 0 {
        assert(input[0] == 0x0a);
        assert(input.skip(1) =~= rest);
        assert(line + text =~= line);
    } else {
        let tail = text.skip(1);
        assert(0x20 <= text[0] < 0x7f);
        assert(input[0] == text[0]);
        assert(input.skip(1) =~= tail + seq![0x0au8] + rest);
        assert forall|i: int| 0 <= i < tail.len() implies 0x20 <= #[trigger] tail[i] < 0x7f by {
            assert(tail[i] == text[i + 1]);
        }
        law_typed_text_is_entered(line.push(text[0]), tail, rest);
        assert(line.push(text[0]) + tail =~= line + text);
    }
}

/// A backspace takes back the character before it.
pub proof fn law_backspace_takes_back(line: Seq<u8>, c: u8, rest: Seq<u8>)
    requires
        0x20 <= c < 0x7f,
    ensures
        edited(line, seq![c, 0x08u8] + rest) == edited(line, rest),
{
    let input = seq![c, 0x08u8] + rest;
    assert(input.skip(1) =~= seq![0x08u8] + rest);
    assert((seq![0x08u8] + rest).skip(1) =~= rest);
    assert(line.push(c).drop_last() =~= line);
    reveal_with_fuel(edited, 3);
}

/// The session and the kernel after `n` steps.
pub open spec fn carried_on(
    sh: ShellView,
    k: KernelView,
    tasks: Seq<(u32, &'static str)>,
    n: nat,
) -> (ShellView, KernelView)
    decreases n,
{
    if n == 0 {
        (sh, k)
    } else {
        let (s, l) = carried_on(sh, k, tasks, (n - 1) as nat);
        (s.stepped(l, tasks).1, s.stepped(l, tasks).2)
    }
}

proof fn lemma_idle_step(sh: ShellView, k: KernelView, tasks: Seq<(u32, &'static str)>)
    requires
        sh.wf(),
        !sh.given_up(),
        sh.input.len() == 0,
        k.vfs.file(sh.fd as int) is Some,
        k.vfs.file(sh.fd as int)->0.inode is Kbd,
        k.sys.keyboard.buffer.len() == 0,
    ensures
        sh.stepped(k, tasks) == (
            StepView::Sleep(POLL_TICKS),
            ShellView { idle: sh.idle + 1, slept: true, ..sh },
            k,
        ),
{
    let f = k.vfs.file(sh.fd as int)->0;
    let (r, vfs, sys, b) = k.vfs.read(k.sys, sh.fd as int, poll_buffer());
    assert(sys.keyboard.buffer =~= k.sys.keyboard.buffer);
    assert(sys =~= k.sys);
    assert(fs::advanced(f.offset, 0) == f.offset);
    assert(vfs.fds =~= k.vfs.fds);
    assert(vfs =~= k.vfs);
}

proof fn lemma_idle_steps(fd: usize, k: KernelView, tasks: Seq<(u32, &'static str)>, n: nat)
    requires
        n <= IDLE_LIMIT + 1,
        k.vfs.file(fd as int) is Some,
        k.vfs.file(fd as int)->0.inode is Kbd,
        k.sys.keyboard.buffer.len() == 0,
    ensures
        carried_on(ShellView::start(fd), k, tasks, n) == (
            ShellView { idle: n as int, slept: n > 0, ..ShellView::start(fd) },
            k,
        ),
    decreases n,
{
    if n > 0 {
        lemma_idle_steps(fd, k, tasks, (n - 1) as nat);
        let s = ShellView { idle: n - 1, slept: n > 1, ..ShellView::start(fd) };
        lemma_idle_step(s, k, tasks);
    }
}

/// A session without any input sleeps for two ticks between polls and ends by itself
/// after 201 of them.
pub proof fn law_idle_session_ends(fd: usize, k: KernelView, tasks: Seq<(u32, &'static str)>)
    requires
        k.vfs.file(fd as int) is Some,
        k.vfs.file(fd as int)->0.inode is Kbd,
        k.sys.keyboard.buffer.len() == 0,
    ensures
        ({
            let (s, l) = carried_on(ShellView::start(fd), k, tasks, 201);
            s.stepped(l, tasks).0 is Idle && s.stepped(l, tasks).2.vfs.file(fd as int) is None
        }),
        forall|n: nat|
            n <= 200 ==> {
                let (s, l) = #[trigger] carried_on(ShellView::start(fd), k, tasks, n);
                s.stepped(l, tasks).0 == StepView::Sleep(2)
            },
{
    lemma_idle_steps(fd, k, tasks, (IDLE_LIMIT + 1) as nat);
    assert forall|n: nat| n <= IDLE_LIMIT implies {
        let (s, l) = #[trigger] carried_on(ShellView::start(fd), k, tasks, n);
        s.stepped(l, tasks).0 == StepView::Sleep(POLL_TICKS)
    } by {
        lemma_idle_steps(fd, k, tasks, n);
        let (s, l) = carried_on(ShellView::start(fd), k, tasks, n);
        lemma_idle_step(s, l, tasks);
    }
}

proof fn lemma_decimal_chars(n: nat)
    ensures
        decimal(n).len() > 0,
        forall|i: int| 0 <= i < decimal(n).len() ==> '0' <= #[trigger] decimal(n)[i] <= '9',
        n <= 255 ==> digits_value(decimal(n)) == Some(n as int),
    decreases n,
{
    if n >= 10 {
        lemma_decimal_chars(n / 10);
        assert(decimal(n).drop_last() =~= decimal(n / 10));
    } else {
        assert(decimal(n).drop_last() =~= seq![]);
        reveal_with_fuel(digits_value, 2);
    }
}

/// Text without dots behind text extends its last part.
proof fn lemma_fields_extend(s: Seq<char>, t: Seq<char>)
    requires
        forall|i: int| 0 <= i < t.len() ==> #[trigger] t[i] != '.',
    ensures
        dot_fields(s).len() > 0,
        dot_fields(s + t) == dot_fields(s).update(
            dot_fields(s).len() - 1,
            dot_fields(s).last() + t,
        ),
    decreases t.len(),
{
    lemma_fields_exist(s);
    let f = dot_fields(s);
    if t.len() == 0 {
        assert(s + t =~= s);
        assert(f.last() + t =~= f.last());
        assert(f.update(f.len() - 1, f.last()) =~= f);
    } else {
        let front = t.drop_last();
        assert forall|i: int| 0 <= i < front.len() implies #[trigger] front[i] != '.' by {
            assert(front[i] == t[i]);
        }
        lemma_fields_extend(s, front);
        assert((s + t).drop_last() =~= s + front);
        assert((s + t).last() == t.last());
        assert(t[t.len() - 1] != '.');
        let g = f.update(f.len() - 1, f.last() + front);
        assert(g.last() == f.last() + front);
        assert((f.last() + front).push(t.last()) =~= f.last() + t);
        assert(g.update(g.len() - 1, f.last() + t) =~= f.update(f.len() - 1, f.last() + t));
    }
}

proof fn lemma_fields_exist(s: Seq<char>)
    ensures
        dot_fields(s).len() > 0,
    decreases s.len(),
{
    if s.len() > 0 {
        lemma_fields_exist(s.drop_last());
    }
}

/// Text without dots behind a dot is a part of its own.
proof fn lemma_fields_append(s: Seq<char>, t: Seq<char>)
    requires
        forall|i: int| 0 <= i < t.len() ==> #[trigger] t[i] != '.',
    ensures
        dot_fields(s + seq!['.'] + t) == dot_fields(s).push(t),
{
    let u = s + seq!['.'];
    assert(u.drop_last() =~= s);
    assert(dot_fields(u) == dot_fields(s).push(seq![]));
    lemma_fields_extend(u, t);
    let f = dot_fields(u);
    assert(f.last() + t =~= t);
    assert(f.update(f.len() - 1, t) =~= dot_fields(s).push(t));
}

/// An address in dotted-quad form is parsed back to the same address.
pub proof fn law_address_text_round_trip(ip: [u8; 4])
    ensures
        ip_of(dotted(ip@)) == Some(ip),
{
    let a = decimal(ip[0] as nat);
    let b = decimal(ip[1] as nat);
    let c = decimal(ip[2] as nat);
    let d = decimal(ip[3] as nat);
    lemma_decimal_chars(ip[0] as nat);
    lemma_decimal_chars(ip[1] as nat);
    lemma_decimal_chars(ip[2] as nat);
    lemma_decimal_chars(ip[3] as nat);
    assert forall|i: int| 0 <= i < a.len() implies #[trigger] a[i] != '.' by {}
    assert forall|i: int| 0 <= i < b.len() implies #[trigger] b[i] != '.' by {}
    assert forall|i: int| 0 <= i < c.len() implies #[trigger] c[i] != '.' by {}
    assert forall|i: int| 0 <= i < d.len() implies #[trigger] d[i] != '.' by {}
    let none = Seq::<char>::empty();
    lemma_fields_extend(none, a);
    assert(none + a =~= a);
    assert(dot_fields(none) =~= seq![none]);
    assert(dot_fields(a) =~= seq![a]);
    lemma_fields_append(a, b);
    let ab = a + seq!['.'] + b;
    lemma_fields_append(ab, c);
    let abc = ab + seq!['.'] + c;
    lemma_fields_append(abc, d);
    assert(dotted(ip@) =~= abc + seq!['.'] + d);
    let f = dot_fields(dotted(ip@));
    assert(f =~= seq![a, b, c, d]);
    assert(a[0] != '+' && b[0] != '+' && c[0] != '+' && d[0] != '+');
    let r = [octet(a)->0, octet(b)->0, octet(c)->0, octet(d)->0];
    assert(r@ =~= ip@);
    assert(r =~= ip);
}

/// Reading out a stored file gives its contents from the descriptor's offset on,
/// whatever its length and in whatever pieces it is read, and changes nothing but
/// the descriptor's offset.
pub proof fn law_stored_file_is_read_out(v: VfsView, s: SystemView, fd: int, buf: Seq<u8>)
    requires
        v.file(fd) is Some,
        v.file(fd)->0.inode is Node,
        v.file(fd)->0.inode->Node_0.data.len() <= u64::MAX,
        0 < buf.len() <= usize::MAX,
    ensures
        read_out(v, s, fd, buf).0 == rest_from(
            v.file(fd)->0.inode->Node_0.data,
            v.file(fd)->0.offset,
        ),
        read_out(v, s, fd, buf).1.file(fd) is Some,
        read_out(v, s, fd, buf).1.mounts == v.mounts,
        forall|j: int| j != fd ==> #[trigger] read_out(v, s, fd, buf).1.file(j) == v.file(j),
        read_out(v, s, fd, buf).2 == s,
    decreases left(v, s, fd),
{
    let f = v.file(fd)->0;
    let data = f.inode->Node_0.data;
    let rest = rest_from(data, f.offset);
    let (r, w, t, b) = v.read(s, fd, buf);
    fs::law_reads_are_consecutive(v, s, fd, buf);
    if progressed(r) {
        lemma_read_progresses(v, s, fd, buf);
        let n = r->Ok_0 as int;
        let piece = b.take(n);
        assert(piece == data.subrange(f.offset as int, f.offset + n));
        law_stored_file_is_read_out(w, t, fd, b);
        let later = rest_from(data, (f.offset + n) as u64);
        assert(piece + later =~= rest);
        assert forall|j: int| j != fd implies #[trigger] read_out(v, s, fd, buf).1.file(j) == v.file(
            j,
        ) by {
            assert(w.file(j) == v.file(j));
        }
    } else {
        assert(rest =~= seq![]);
    }
}

/// `cat` of a stored text file prints its contents as they are: the text that the
/// whole file encodes, whose encoding is the file again. Of any other file it prints
/// the valid stretches as they are. Either way every descriptor is afterwards as it
/// was.
pub proof fn law_cat_prints_file(k: KernelView, path: Seq<char>, t: Tree)
    requires
        k.wf(),
        resolved(k.vfs.mounts, path) == Ok::<InodeView, FsError>(InodeView::Node(t)),
        k.vfs.opened(resolved(k.vfs.mounts, path)).0 is Ok,
        t.data.len() <= u64::MAX,
    ensures
        valid_utf8(t.data) ==> catted(k, path).0 == decode_utf8(t.data) && encode_utf8(
            catted(k, path).0,
        ) == t.data,
        catted(k, path).0 == readable(t.data, "<binary>"@),
        catted(k, path).1.sys == k.sys,
        catted(k, path).1.vfs.mounts == k.vfs.mounts,
        forall|fd: int| #[trigger] catted(k, path).1.vfs.file(fd) == k.vfs.file(fd),
{
    let (r, v) = k.vfs.opened(resolved(k.vfs.mounts, path));
    let fd = r->Ok_0 as int;
    law_open_takes_lowest_free(k.vfs, InodeView::Node(t), 0);
    law_stored_file_is_read_out(v, k.sys, fd, chunk());
    assert(rest_from(t.data, 0) =~= t.data);
    if valid_utf8(t.data) {
        law_valid_stretch_is_kept(t.data, seq![], "<binary>"@);
        assert(t.data + seq![] =~= t.data);
        assert(decode_utf8(t.data) + seq![] =~= decode_utf8(t.data));
        vstd::utf8::decode_utf8_encode_utf8(t.data);
    }
    let (_, w, _) = read_out(v, k.sys, fd, chunk());
    assert forall|j: int| #[trigger] catted(k, path).1.vfs.file(j) == k.vfs.file(j) by {
        law_open_takes_lowest_free(k.vfs, InodeView::Node(t), j);
        if j != fd {
            assert(w.file(j) == v.file(j));
        }
    }
}

proof fn lemma_digits_value(s: Seq<char>)
    requires
        all_digits(s),
    ensures
        value_of(s) >= 0,
        digits_value(s) == if value_of(s) <= 255 {
            Some(value_of(s))
        } else {
            None::<int>
        },
    decreases s.len(),
{
    if s.len() > 0 {
        let front = s.drop_last();
        assert forall|i: int| 0 <= i < front.len() implies '0' <= #[trigger] front[i] <= '9' by {
            assert(front[i] == s[i]);
        }
        lemma_digits_value(front);
        let c = s[s.len() - 1];
        assert('0' <= c <= '9');
        assert(s.last() == c);
        assert(value_of(s) == 10 * value_of(front) + (c as u32 - 48));
    }
}

/// Which texts spell an octet: those of decimal digits, at least one, that denote at
/// most 255, with a plus sign in front or without, and no text with anything else in
/// it.
pub proof fn law_octets(s: Seq<char>, i: int)
    ensures
        all_digits(s) && s.len() > 0 && value_of(s) <= 255 ==> octet(s) is Some && octet(s)->0
            == value_of(s) && octet(seq!['+'] + s) == octet(s),
        all_digits(s) && value_of(s) > 255 ==> octet(s) is None && octet(seq!['+'] + s) is None,
        0 < i < s.len() && !('0' <= s[i] <= '9') ==> octet(s) is None,
        s.len() > 0 && !('0' <= s[0] <= '9') && s[0] != '+' ==> octet(s) is None,
        octet(seq![]) is None,
        octet(seq!['+']) is None,
{
    let plus = seq!['+'] + s;
    assert(plus.skip(1) =~= s);
    assert(seq!['+'].skip(1) =~= seq![]);
    if all_digits(s) {
        lemma_digits_value(s);
        if s.len() > 0 {
            assert('0' <= s[0] <= '9');
        }
    }
    let digits = if s.len() > 0 && s[0] == '+' {
        s.skip(1)
    } else {
        s
    };
    if 0 < i < s.len() && !('0' <= s[i] <= '9') {
        let n = if s[0] == '+' {
            i
        } else {
            i + 1
        };
        assert(digits.take(n).last() == s[i]);
        lemma_digits_stop(digits, n);
    }
    if s.len() > 0 && !('0' <= s[0] <= '9') && s[0] != '+' {
        assert(digits.take(1).last() == s[0]);
        lemma_digits_stop(digits, 1);
    }
}

/// A text has as many fields as it has dots, and one more: text without a dot is one
/// field, and what a dot joins has the fields of both sides.
pub proof fn law_fields_between_dots(s: Seq<char>, t: Seq<char>)
    ensures
        dot_fields(s + seq!['.'] + t) == dot_fields(s) + dot_fields(t),
        (forall|i: int| 0 <= i < t.len() ==> #[trigger] t[i] != '.') ==> dot_fields(t) == seq![
            t,
        ],
    decreases t.len(),
{
    let u = s + seq!['.'] + t;
    if t.len() == 0 {
        assert(u.drop_last() =~= s);
        assert(dot_fields(s) + seq![seq![]] =~= dot_fields(s).push(seq![]));
        assert(t =~= seq![]);
    } else {
        let front = t.drop_last();
        law_fields_between_dots(s, front);
        lemma_fields_exist(front);
        assert(u.drop_last() =~= s + seq!['.'] + front);
        assert(u.last() == t.last());
        assert(dot_fields(u) =~= dot_fields(s) + dot_fields(t));
        if forall|i: int| 0 <= i < t.len() ==> #[trigger] t[i] != '.' {
            assert forall|i: int| 0 <= i < front.len() implies #[trigger] front[i] != '.' by {
                assert(front[i] == t[i]);
            }
            assert(t[t.len() - 1] != '.');
            assert(front.push(t.last()) =~= t);
            assert(dot_fields(t) =~= seq![t]);
        }
    }
}

/// Four texts with dots in between spell an address exactly if each spells an octet,
/// and then the address of these four.
pub proof fn law_address_of_four_octets(a: Seq<char>, b: Seq<char>, c: Seq<char>, d: Seq<char>)
    requires
        forall|i: int| 0 <= i < a.len() ==> #[trigger] a[i] != '.',
        forall|i: int| 0 <= i < b.len() ==> #[trigger] b[i] != '.',
        forall|i: int| 0 <= i < c.len() ==> #[trigger] c[i] != '.',
        forall|i: int| 0 <= i < d.len() ==> #[trigger] d[i] != '.',
    ensures
        ({
            let ip = ip_of(a + seq!['.'] + (b + seq!['.'] + (c + seq!['.'] + d)));
            &&& ip is Some <==> octet(a) is Some && octet(b) is Some && octet(c) is Some && octet(
                d,
            ) is Some
            &&& ip is Some ==> ip->0@ == seq![octet(a)->0, octet(b)->0, octet(c)->0, octet(d)->0]
        }),
        ip_of(a + seq!['.'] + (b + seq!['.'] + c)) is None,
{
    let cd = c + seq!['.'] + d;
    let bcd = b + seq!['.'] + cd;
    law_fields_between_dots(c, d);
    law_fields_between_dots(b, cd);
    law_fields_between_dots(a, bcd);
    law_fields_between_dots(seq![], a);
    law_fields_between_dots(seq![], b);
    law_fields_between_dots(b, c);
    law_fields_between_dots(a, b + seq!['.'] + c);
    let s = a + seq!['.'] + bcd;
    assert(dot_fields(s) =~= seq![a, b, c, d]);
    assert(dot_fields(a + seq!['.'] + (b + seq!['.'] + c)) =~= seq![a, b, c]);
    if ip_of(s) is Some {
        assert(ip_of(s)->0@ =~= seq![octet(a)->0, octet(b)->0, octet(c)->0, octet(d)->0]);
    }
}

/// How single keys edit a line: carriage return and line feed complete it, a backspace
/// takes back at most one character, and other control characters and bytes beyond
/// ASCII are ignored.
pub proof fn law_keys_edit(line: Seq<u8>, c: u8, b: u8, rest: Seq<u8>)
    ensures
        b == 10 || b == 13 ==> edited(line, seq![b] + rest) == (line, rest, true),
        b == 8 ==> edited(line.push(c), seq![b] + rest) == edited(line, rest),
        b == 8 ==> edited(seq![], seq![b] + rest) == edited(seq![], rest),
        32 <= b <= 126 ==> edited(line, seq![b] + rest) == edited(line.push(b), rest),
        b < 32 && b != 8 && b != 10 && b != 13 || b >= 127 ==> edited(line, seq![b] + rest)
            == edited(line, rest),
        edited(line, seq![]) == (line, Seq::<u8>::empty(), false),
{
    let input = seq![b] + rest;
    assert(input.skip(1) =~= rest);
    assert(line.push(c).drop_last() =~= line);
}

/// What `free` prints: the whole KiB of the heap in use and free, the number of free
/// frames, and the whole MiB in these, 256 frames each.
pub proof fn law_free_counts(s: SystemView, used: nat, free: nat, mib: nat)
    requires
        used * 1024 <= s.heap.used < (used + 1) * 1024,
        free * 1024 <= s.heap.free < (free + 1) * 1024,
        mib * 256 <= s.frames.free_count() < (mib + 1) * 256,
    ensures
        free_text(s) == "heap used="@ + decimal(used) + " KiB free="@ + decimal(free)
            + " KiB | physical free frames="@ + decimal(s.frames.free_count() as nat) + " ("@
            + decimal(mib) + " MiB)\n"@,
{
    let frames = s.frames.free_count() as nat;
    assert(s.heap.used as nat / 1024 == used);
    assert(s.heap.free as nat / 1024 == free);
    assert(frames * 4 / 1024 == mib);
}

/// No command but `cat` changes anything by itself.
pub proof fn law_commands_leave_the_kernel_alone(
    k: KernelView,
    tasks: Seq<(u32, &'static str)>,
    words: Seq<Seq<char>>,
)
    requires
        words.len() < 2 || words[0] != "cat"@,
    ensures
        replied(k, tasks, words).1 == k,
{
}

/// A command line of words with a space between them, as typed, is split into these
/// words; `echo` prints those behind it with a space between them.
pub proof fn law_echo_prints_its_words(
    k: KernelView,
    tasks: Seq<(u32, &'static str)>,
    words: Seq<Seq<char>>,
)
    requires
        are_parts(words, Separator::Whitespace),
        words.len() > 0,
        words[0] == "echo"@,
    ensures
        words_of(encode_utf8(joined(words, seq![' ']))) == words,
        replied(k, tasks, words_of(encode_utf8(joined(words, seq![' '])))) == (
            ReplyView::Print(joined(words.skip(1), seq![' ']).push('\n')),
            k,
        ),
{
    let line = joined(words, seq![' ']);
    crate::text::law_text_or_other(line, seq![], ""@);
    law_split_undoes_join(words, ' ', Separator::Whitespace);
    reveal_strlit("echo");
    reveal_strlit("help");
    assert("echo"@[0] == 'e' && "help"@[0] == 'h');
    reveal_strlit(" ");
    reveal_strlit("\n");
    assert(" "@ =~= seq![' ']);
    let t = joined(words.skip(1), seq![' ']);
    assert(t + "\n"@ =~= t.push('\n'));
}

proof fn lemma_two_words(a: Seq<char>, b: Seq<char>, v: Seq<Seq<char>>, w: Seq<Seq<char>>)
    requires
        parts(a, Separator::Whitespace) == v,
        parts(b, Separator::Whitespace) == w,
    ensures
        parts(a + " "@ + b, Separator::Whitespace) == v + w,
        parts(a + "\n"@, Separator::Whitespace) == v,
        parts("  "@ + a, Separator::Whitespace) == v,
{
    let ws = Separator::Whitespace;
    let none = Seq::<char>::empty();
    let empty = Seq::<Seq<char>>::empty();
    reveal_strlit(" ");
    reveal_strlit("  ");
    reveal_strlit("\n");
    assert(" "@ =~= seq![' ']);
    law_parts_of_both_sides(a, ' ', b, ws);
    law_parts_of_both_sides(a, '\n', none, ws);
    assert(a + "\n"@ =~= a + seq!['\n'] + none);
    assert(parts(none, ws) =~= empty);
    assert(v + empty =~= v);
    law_parts_of_both_sides(none, ' ', none, ws);
    law_parts_of_both_sides(seq![' '], ' ', a, ws);
    assert(none + seq![' '] + none =~= seq![' ']);
    assert("  "@ + a =~= seq![' '] + seq![' '] + a);
    assert(empty + empty =~= empty);
    assert(empty + v =~= v);
}

/// A line of `ps` has two words: the identifier in decimal, and the state.
pub proof fn law_ps_line_words(id: u32, state: &'static str)
    requires
        parts(state@, Separator::Whitespace) == seq![state@],
    ensures
        parts(ps_line((id, state)), Separator::Whitespace) == seq![decimal(id as nat), state@],
{
    let ws = Separator::Whitespace;
    let n = decimal(id as nat);
    lemma_decimal_word(id as nat, ws);
    let a = "  "@ + n;
    lemma_two_words(n, state@, seq![n], seq![state@]);
    lemma_two_words(a, state@, seq![n], seq![state@]);
    let b = a + " "@ + state@;
    lemma_two_words(b, state@, seq![n] + seq![state@], seq![state@]);
    assert(ps_line((id, state)) =~= b + "\n"@);
    assert(seq![n] + seq![state@] =~= seq![n, state@]);
}

proof fn lemma_peer_word(peer: Option<([u8; 4], u16)>)
    ensures
        parts(peer_text(peer), Separator::Whitespace) == seq![peer_text(peer)],
{
    let ws = Separator::Whitespace;
    reveal_strlit(":");
    reveal_strlit("-");
    let s = peer_text(peer);
    match peer {
        Some((ip, port)) => {
            lemma_dotted_word(ip@);
            lemma_decimal_word(port as nat, ws);
            let a = dotted(ip@);
            let n = decimal(port as nat);
            assert forall|i: int| 0 <= i < s.len() implies !crate::text::separates(
                ws,
                #[trigger] s[i],
            ) by {
                if i < a.len() {
                    assert(s[i] == a[i]);
                } else if i == a.len() {
                    assert(s[i] == ':');
                } else {
                    assert(s[i] == n[i - a.len() - 1]);
                }
            }
        },
        None => {
            assert(s =~= seq!['-']);
        },
    }
    lemma_parts_last(s, ws);
}

/// A line of `netstat` has five words: the protocol, `udp` for 17 and `tcp` for the
/// others; the slot; the port; the peer; and how many datagrams wait. The numbers are
/// in decimal.
#[verifier::rlimit(40)]
pub proof fn law_netstat_line_words(s: SocketInfo, words: Seq<Seq<char>>)
    requires
        words == seq![
            if s.1 == 17 {
                seq!['u', 'd', 'p']
            } else {
                seq!['t', 'c', 'p']
            },
            decimal(s.0 as nat),
            decimal(s.2 as nat),
            match s.3 {
                Some((ip, port)) => dotted(ip@) + seq![':'] + decimal(port as nat),
                None => seq!['-'],
            },
            decimal(s.4 as nat),
        ],
    ensures
        parts(netstat_line(s), Separator::Whitespace) == words,
{
    let ws = Separator::Whitespace;
    reveal_strlit("udp");
    reveal_strlit("tcp");
    reveal_strlit(":");
    reveal_strlit("-");
    let proto = if s.1 == PROTO_UDP {
        "udp"@
    } else {
        "tcp"@
    };
    assert("udp"@ =~= seq!['u', 'd', 'p']);
    assert("tcp"@ =~= seq!['t', 'c', 'p']);
    assert(":"@ =~= seq![':']);
    assert("-"@ =~= seq!['-']);
    lemma_parts_last(proto, ws);
    lemma_decimal_word(s.0 as nat, ws);
    lemma_decimal_word(s.2 as nat, ws);
    lemma_decimal_word(s.4 as nat, ws);
    lemma_peer_word(s.3);
    lemma_aligned_words(decimal(s.0 as nat), 4);
    lemma_aligned_words(decimal(s.2 as nat), 5);
    lemma_aligned_words(peer_text(s.3), 15);
    let i = right_aligned(decimal(s.0 as nat), 4);
    let p = right_aligned(decimal(s.2 as nat), 5);
    let q = left_aligned(peer_text(s.3), 15);
    let n = decimal(s.4 as nat);
    let t0 = "  "@ + proto;
    lemma_two_words(proto, i, seq![words[0]], seq![words[1]]);
    lemma_two_words(t0, i, seq![words[0]], seq![words[1]]);
    let t1 = t0 + " "@ + i;
    lemma_two_words(t1, p, seq![words[0]] + seq![words[1]], seq![words[2]]);
    let t2 = t1 + " "@ + p;
    lemma_two_words(t2, q, seq![words[0]] + seq![words[1]] + seq![words[2]], seq![words[3]]);
    let t3 = t2 + " "@ + q;
    lemma_two_words(
        t3,
        n,
        seq![words[0]] + seq![words[1]] + seq![words[2]] + seq![words[3]],
        seq![words[4]],
    );
    let t4 = t3 + " "@ + n;
    let all = seq![words[0]] + seq![words[1]] + seq![words[2]] + seq![words[3]] + seq![words[4]];
    lemma_two_words(t4, n, all, seq![words[4]]);
    assert(netstat_line(s) =~= t4 + "\n"@);
    assert(all =~= words);
}

/// `ps`, `netstat` and `arp` print one line for each thing that they list, in order,
/// behind their heading, if they have one.
pub proof fn law_listings_are_line_by_line(
    tasks: Seq<(u32, &'static str)>,
    task: (u32, &'static str),
    info: Seq<SocketInfo>,
    socket: SocketInfo,
    known: Seq<([u8; 4], MacAddr)>,
    host: ([u8; 4], MacAddr),
)
    ensures
        ps_text(seq![]) == "[pid] state\n"@,
        ps_text(tasks.push(task)) == ps_text(tasks) + ps_line(task),
        netstat_text(seq![]) == "  proto  local  peer            queue\n"@,
        netstat_text(info.push(socket)) == netstat_text(info) + netstat_line(socket),
        arp_lines(seq![]) == Seq::<char>::empty(),
        arp_lines(known.push(host)) == arp_lines(known) + arp_line(host),
{
    assert(tasks.push(task).drop_last() =~= tasks);
    assert(info.push(socket).drop_last() =~= info);
    assert(known.push(host).drop_last() =~= known);
}

/// The names of the commands differ in their lengths or first characters.
proof fn lemma_command_names()
    ensures
        "help"@.len() == 4 && "help"@[0] == 'h',
        "echo"@.len() == 4 && "echo"@[0] == 'e' && "echo"@[1] == 'c',
        "ls"@.len() == 2 && "ls"@[0] == 'l',
        "cat"@.len() == 3 && "cat"@[0] == 'c',
        "ps"@.len() == 2 && "ps"@[0] == 'p',
        "free"@.len() == 4 && "free"@[0] == 'f',
        "ifconfig"@.len() == 8,
        "arp"@.len() == 3 && "arp"@[0] == 'a',
        "netstat"@.len() == 7,
        "ping"@.len() == 4 && "ping"@[0] == 'p',
        "net"@.len() == 3 && "net"@[0] == 'n',
        "exit"@.len() == 4 && "exit"@[0] == 'e' && "exit"@[1] == 'x',
        "quit"@.len() == 4 && "quit"@[0] == 'q',
{
    reveal_strlit("help");
    reveal_strlit("echo");
    reveal_strlit("ls");
    reveal_strlit("cat");
    reveal_strlit("ps");
    reveal_strlit("free");
    reveal_strlit("ifconfig");
    reveal_strlit("arp");
    reveal_strlit("netstat");
    reveal_strlit("ping");
    reveal_strlit("net");
    reveal_strlit("exit");
    reveal_strlit("quit");
}

/// The listings print what they list, whatever follows their name.
pub proof fn law_listing_commands(
    k: KernelView,
    tasks: Seq<(u32, &'static str)>,
    words: Seq<Seq<char>>,
)
    requires
        words.len() > 0,
    ensures
        words[0] == "help"@ ==> replied(k, tasks, words).0 == ReplyView::Print(help_text()),
        words[0] == "ps"@ ==> replied(k, tasks, words).0 == ReplyView::Print(ps_text(tasks)),
        words[0] == "free"@ ==> replied(k, tasks, words).0 == ReplyView::Print(free_text(k.sys)),
        words[0] == "ifconfig"@ ==> replied(k, tasks, words).0 == ReplyView::Print(
            ifconfig_text(k.sys.net),
        ),
        words[0] == "arp"@ ==> replied(k, tasks, words).0 == ReplyView::Print(arp_text(k.sys.net)),
        words[0] == "netstat"@ ==> replied(k, tasks, words).0 == ReplyView::Print(
            netstat_text(socket::info_of(k.sys.net.sockets)),
        ),
        words[0] == "net"@ ==> replied(k, tasks, words).0 is NetDemo,
        words[0] == "exit"@ || words[0] == "quit"@ ==> replied(k, tasks, words).0 is Quit,
{
    lemma_command_names();
}

/// What the commands with an argument do: `ls` without one lists the root; `cat` and
/// `ping` need one, and `ping` an address.
pub proof fn law_argument_commands(
    k: KernelView,
    tasks: Seq<(u32, &'static str)>,
    words: Seq<Seq<char>>,
    ip: [u8; 4],
)
    requires
        words.len() > 0,
    ensures
        words[0] == "ls"@ && words.len() == 1 ==> replied(k, tasks, words).0 == ReplyView::Print(
            ls_text(k.vfs, seq!['/']),
        ),
        words[0] == "ls"@ && words.len() > 1 ==> replied(k, tasks, words).0 == ReplyView::Print(
            ls_text(k.vfs, words[1]),
        ),
        words[0] == "cat"@ && words.len() > 1 ==> replied(k, tasks, words) == (
            ReplyView::Print(catted(k, words[1]).0),
            catted(k, words[1]).1,
        ),
        words[0] == "cat"@ && words.len() == 1 ==> replied(k, tasks, words).0 == ReplyView::Print(
            "cat: missing operand\n"@,
        ),
        words[0] == "ping"@ && words.len() > 1 && words[1] == dotted(ip@) ==> replied(
            k,
            tasks,
            words,
        ).0 == ReplyView::Ping(ip),
        words[0] == "ping"@ && words.len() == 1 ==> replied(k, tasks, words).0 == ReplyView::Print(
            "usage: ping a.b.c.d\n"@,
        ),
{
    lemma_command_names();
    law_address_text_round_trip(ip);
    reveal_strlit("/");
    assert("/"@ =~= seq!['/']);
}

/// A command of any other name is reported back.
pub proof fn law_unknown_command(
    k: KernelView,
    tasks: Seq<(u32, &'static str)>,
    words: Seq<Seq<char>>,
)
    requires
        words.len() > 0,
        words[0].len() > 8,
    ensures
        replied(k, tasks, words) == (
            ReplyView::Print(words[0] + ": command not found (try 'help')\n"@),
            k,
        ),
{
    lemma_command_names();
}

/// The names of the errors.
pub proof fn law_error_names()
    ensures
        error_text(FsError::Io) == seq!['I', 'o'],
        error_text(FsError::IsDir) == seq!['I', 's', 'D', 'i', 'r'],
        error_text(FsError::NotDir) == seq!['N', 'o', 't', 'D', 'i', 'r'],
        error_text(FsError::NoSpace) == seq!['N', 'o', 'S', 'p', 'a', 'c', 'e'],
        error_text(FsError::NotFound) == seq!['N', 'o', 't', 'F', 'o', 'u', 'n', 'd'],
        error_text(FsError::InvalidArg) == seq!['I', 'n', 'v', 'a', 'l', 'i', 'd', 'A', 'r', 'g'],
        error_text(FsError::PermissionDenied) == seq![
            'P', 'e', 'r', 'm', 'i', 's', 's', 'i', 'o', 'n', 'D', 'e', 'n', 'i', 'e', 'd',
        ],
{
    reveal_strlit("Io");
    reveal_strlit("IsDir");
    reveal_strlit("NotDir");
    reveal_strlit("NoSpace");
    reveal_strlit("NotFound");
    reveal_strlit("InvalidArg");
    reveal_strlit("PermissionDenied");
    assert("Io"@ =~= seq!['I', 'o']);
    assert("IsDir"@ =~= seq!['I', 's', 'D', 'i', 'r']);
    assert("NotDir"@ =~= seq!['N', 'o', 't', 'D', 'i', 'r']);
    assert("NoSpace"@ =~= seq!['N', 'o', 'S', 'p', 'a', 'c', 'e']);
    assert("NotFound"@ =~= seq!['N', 'o', 't', 'F', 'o', 'u', 'n', 'd']);
    assert("InvalidArg"@ =~= seq!['I', 'n', 'v', 'a', 'l', 'i', 'd', 'A', 'r', 'g']);
    assert("PermissionDenied"@ =~= seq![
        'P', 'e', 'r', 'm', 'i', 's', 's', 'i', 'o', 'n', 'D', 'e', 'n', 'i', 'e', 'd',
    ]);
}

/// The line that says why a command failed has four words: the command with a colon,
/// the path, an arrow, and the error.
pub proof fn law_failure_line_words(cmd: Seq<char>, path: Seq<char>, e: FsError)
    requires
        parts(cmd.push(':'), Separator::Whitespace) == seq![cmd.push(':')],
        parts(path, Separator::Whitespace) == seq![path],
    ensures
        parts(failure_line(cmd, path, e), Separator::Whitespace) == seq![
            cmd.push(':'),
            path,
            seq!['-', '>'],
            error_text(e),
        ],
{
    let ws = Separator::Whitespace;
    law_error_names();
    reveal_strlit(": ");
    reveal_strlit(" -> ");
    reveal_strlit(" ");
    let c = cmd.push(':');
    let arrow = seq!['-', '>'];
    let name = error_text(e);
    lemma_parts_last(arrow, ws);
    lemma_parts_last(name, ws);
    lemma_two_words(c, path, seq![c], seq![path]);
    let t1 = c + " "@ + path;
    lemma_two_words(t1, arrow, seq![c] + seq![path], seq![arrow]);
    let t2 = t1 + " "@ + arrow;
    lemma_two_words(t2, name, seq![c] + seq![path] + seq![arrow], seq![name]);
    let t3 = t2 + " "@ + name;
    let all = seq![c] + seq![path] + seq![arrow] + seq![name];
    lemma_two_words(t3, name, all, seq![name]);
    assert(failure_line(cmd, path, e) =~= t3 + "\n"@);
    assert(all =~= seq![c, path, arrow, name]);
}

/// The line that lists a directory: the path, a colon and a space, the listing, and the
/// end of the line.
pub proof fn law_listing_line(path: Seq<char>, listing: Seq<char>)
    ensures
        ({
            let line = ls_line(path, listing);
            let n = path.len() as int;
            &&& line.len() == n + 2 + listing.len() + 1
            &&& line.take(n) == path
            &&& line[n] == ':' && line[n + 1] == ' '
            &&& line.subrange(n + 2, line.len() - 1) == listing
            &&& line.last() == '\n'
        }),
{
    reveal_strlit(": ");
    reveal_strlit("\n");
    let line = ls_line(path, listing);
    let n = path.len() as int;
    assert(line.take(n) =~= path);
    assert(line.subrange(n + 2, line.len() - 1) =~= listing);
}

/// A MAC address as text has the characters of its rendering.
pub proof fn law_mac_characters(m: MacAddr, i: int)
    ensures
        mac_chars(m).len() == 17,
        0 <= i < 17 ==> mac_chars(m)[i] as u8 == mac_text(m.0@)[i],
        forall|j: int|
            0 <= j < 17 ==> !crate::text::separates(
                Separator::Whitespace,
                #[trigger] mac_chars(m)[j],
            ),
{
    let b = mac_text(m.0@);
    net::ethernet::law_mac_text_is_faithful(m.0@, m.0@);
    let chars = Seq::new(17, |j: int| b[j] as char);
    assert forall|j: int| 0 <= j < 17 implies '\0' <= #[trigger] chars[j] <= '\u{7f}' && chars[j] as u8
        == b[j] && !crate::text::separates(Separator::Whitespace, chars[j]) by {
        let c = b[j] as char;
        if j % 3 == 2 {
            assert(b[j] == 0x3a);
        } else {
            assert(0x30 <= b[j] <= 0x39 || 0x61 <= b[j] <= 0x66);
        }
    }
    assert(is_ascii_chars(chars));
    is_ascii_chars_encode_utf8(chars);
    assert(encode_utf8(chars) =~= b);
    encode_utf8_valid_utf8(chars);
    encode_utf8_decode_utf8(chars);
}

/// A line of `arp` has three words: the address, an arrow, and the MAC address.
pub proof fn law_arp_line_words(b: ([u8; 4], MacAddr))
    ensures
        parts(arp_line(b), Separator::Whitespace) == seq![
            dotted(b.0@),
            seq!['-', '>'],
            mac_chars(b.1),
        ],
{
    let ws = Separator::Whitespace;
    let ip = dotted(b.0@);
    let arrow = seq!['-', '>'];
    let mac = mac_chars(b.1);
    reveal_strlit(" -> ");
    reveal_strlit(" ");
    lemma_dotted_word(b.0@);
    law_mac_characters(b.1, 0);
    lemma_parts_last(arrow, ws);
    lemma_parts_last(mac, ws);
    lemma_two_words(ip, arrow, seq![ip], seq![arrow]);
    let t0 = "  "@ + ip;
    lemma_two_words(t0, arrow, seq![ip], seq![arrow]);
    let t1 = t0 + " "@ + arrow;
    lemma_two_words(t1, mac, seq![ip] + seq![arrow], seq![mac]);
    let t2 = t1 + " "@ + mac;
    let all = seq![ip] + seq![arrow] + seq![mac];
    lemma_two_words(t2, mac, all, seq![mac]);
    assert(arp_line(b) =~= t2 + "\n"@);
    assert(all =~= seq![ip, arrow, mac]);
}

/// What `ifconfig` prints: the two addresses as they are written, and the card's.
pub proof fn law_ifconfig_line(s: StackView)
    ensures
        ifconfig_text(s) == "e1000: ip=10.0.2.15 gw=10.0.2.2 mac="@ + mac_chars(s.our_mac()) + "\n"@,
{
    reveal_strlit("e1000: ip=");
    reveal_strlit(" gw=");
    reveal_strlit(" mac=");
    reveal_strlit("e1000: ip=10.0.2.15 gw=10.0.2.2 mac=");
    reveal_with_fuel(decimal, 3);
    assert(dotted(IP@) =~= seq!['1', '0', '.', '0', '.', '2', '.', '1', '5']);
    assert(dotted(GATEWAY@) =~= seq!['1', '0', '.', '0', '.', '2', '.', '2']);
    assert("e1000: ip="@ + dotted(IP@) + " gw="@ + dotted(GATEWAY@) + " mac="@
        =~= "e1000: ip=10.0.2.15 gw=10.0.2.2 mac="@);
}

/// A line that is typed and ended is run, and the session goes on with what was typed
/// behind it; quitting closes the session's descriptor.
pub proof fn law_typed_line_is_run(
    sh: ShellView,
    k: KernelView,
    tasks: Seq<(u32, &'static str)>,
    text: Seq<u8>,
    rest: Seq<u8>,
)
    requires
        !sh.given_up(),
        sh.input == text + seq![10u8] + rest,
        printable(text),
    ensures
        ({
            let (step, after, l) = sh.stepped(k, tasks);
            let (reply, m) = replied(k, tasks, words_of(sh.line + text));
            &&& step == StepView::Ran(reply)
            &&& after.line.len() == 0
            &&& after.input == rest
            &&& after.fd == sh.fd
            &&& !(reply is Quit) ==> l == m
            &&& reply is Quit ==> l.vfs.file(sh.fd as int) is None && l.sys == m.sys
        }),
{
    law_typed_text_is_entered(sh.line, text, rest);
}

/// A poll takes up to 32 keys in their order; a session that gets some is not idle.
pub proof fn law_poll_takes_keys(
    sh: ShellView,
    k: KernelView,
    tasks: Seq<(u32, &'static str)>,
    got: Seq<u8>,
    left: Seq<u8>,
)
    requires
        !sh.given_up(),
        sh.input.len() == 0,
        k.vfs.file(sh.fd as int) is Some,
        k.vfs.file(sh.fd as int)->0.inode is Kbd,
        k.sys.keyboard.buffer == got + left,
        0 < got.len() <= 32,
        got.len() == 32 || left.len() == 0,
    ensures
        ({
            let (step, after, l) = sh.stepped(k, tasks);
            &&& step is More
            &&& after.input == got
            &&& after.line == sh.line
            &&& after.idle == 0
            &&& !after.slept
            &&& l.sys.keyboard.buffer == left
        }),
{
    let f = k.vfs.file(sh.fd as int)->0;
    fs::vfs::law_keyboard_read(k.sys, f.offset, poll_buffer(), got, left);
}

/// What the first step of a ping puts on the wire: a question for the gateway, if the
/// destination is not known, and then the first echo request.
pub proof fn law_ping_starts(s: StackView, dst: [u8; 4])
    requires
        s.nic is Some,
    ensures
        ({
            let n = s.nic->0;
            let after = ping_started(s, dst);
            let asked = if arp::binding(s.cache, dst) is None {
                arp::requested(s, [10u8, 0, 2, 2])
            } else {
                s
            };
            let f = sent_frame(asked.nic->0, after.nic->0);
            &&& after.nic is Some && asked.nic is Some
            &&& after.nic->0.ops.len() == n.ops.len() + if arp::binding(s.cache, dst) is None {
                6int
            } else {
                3int
            }
            &&& f.subrange(30, 34) == dst@
            &&& f[23] == 1 && f[34] == 8
            &&& f[40] == 0 && f[41] == 1
        }),
{
    let g = [10u8, 0, 2, 2];
    assert(g@ =~= GATEWAY@);
    assert(g =~= GATEWAY);
    let asked = if arp::binding(s.cache, dst) is None {
        arp::requested(s, GATEWAY)
    } else {
        s
    };
    net::icmp::law_ping_on_the_wire(asked, dst, 1);
}

/// A line of bytes that are no text has no words.
pub proof fn law_line_of_no_text(line: Seq<u8>)
    requires
        !valid_utf8(line),
    ensures
        words_of(line).len() == 0,
{
    reveal_strlit("");
    assert(""@ =~= seq![]);
}

/// Reading out a synthetic file gives the bytes of its text from the descriptor's
/// offset on, in whatever pieces it is read, and changes nothing but the offset.
pub proof fn law_synthetic_file_is_read_out(v: VfsView, s: SystemView, fd: int, buf: Seq<u8>)
    requires
        v.file(fd) is Some,
        v.file(fd)->0.inode is Proc,
        encode_utf8(proc_text(v.file(fd)->0.inode->Proc_0, s)).len() <= u64::MAX,
        0 < buf.len() <= usize::MAX,
    ensures
        read_out(v, s, fd, buf).0 == rest_from(
            encode_utf8(proc_text(v.file(fd)->0.inode->Proc_0, s)),
            v.file(fd)->0.offset,
        ),
        read_out(v, s, fd, buf).1.file(fd) is Some,
        forall|j: int| j != fd ==> #[trigger] read_out(v, s, fd, buf).1.file(j) == v.file(j),
        read_out(v, s, fd, buf).2 == s,
    decreases left(v, s, fd),
{
    let f = v.file(fd)->0;
    let data = encode_utf8(proc_text(f.inode->Proc_0, s));
    let rest = rest_from(data, f.offset);
    let (r, w, t, b) = v.read(s, fd, buf);
    if progressed(r) {
        lemma_read_progresses(v, s, fd, buf);
        let n = r->Ok_0 as int;
        let piece = b.take(n);
        assert(piece =~= data.subrange(f.offset as int, f.offset + n));
        law_synthetic_file_is_read_out(w, t, fd, b);
        let later = rest_from(data, (f.offset + n) as u64);
        assert(piece + later =~= rest);
        assert forall|j: int| j != fd implies #[trigger] read_out(v, s, fd, buf).1.file(j) == v.file(
            j,
        ) by {
            assert(w.file(j) == v.file(j));
        }
    } else {
        assert(rest =~= seq![]);
    }
}

/// `cat` of a synthetic file prints its text, and leaves every descriptor as it was.
pub proof fn law_cat_prints_synthetic_file(k: KernelView, path: Seq<char>, p: ProcFile)
    requires
        k.wf(),
        resolved(k.vfs.mounts, path) == Ok::<InodeView, FsError>(InodeView::Proc(p)),
        k.vfs.opened(resolved(k.vfs.mounts, path)).0 is Ok,
        encode_utf8(proc_text(p, k.sys)).len() <= u64::MAX,
    ensures
        catted(k, path).0 == proc_text(p, k.sys),
        catted(k, path).1.sys == k.sys,
        forall|fd: int| #[trigger] catted(k, path).1.vfs.file(fd) == k.vfs.file(fd),
{
    let (r, v) = k.vfs.opened(resolved(k.vfs.mounts, path));
    let fd = r->Ok_0 as int;
    let text = proc_text(p, k.sys);
    let data = encode_utf8(text);
    law_open_takes_lowest_free(k.vfs, InodeView::Proc(p), 0);
    law_synthetic_file_is_read_out(v, k.sys, fd, chunk());
    assert(rest_from(data, 0) =~= data);
    encode_utf8_valid_utf8(text);
    encode_utf8_decode_utf8(text);
    law_valid_stretch_is_kept(data, seq![], "<binary>"@);
    assert(data + seq![] =~= data);
    assert(text + seq![] =~= text);
    let (_, w, _) = read_out(v, k.sys, fd, chunk());
    assert forall|j: int| #[trigger] catted(k, path).1.vfs.file(j) == k.vfs.file(j) by {
        law_open_takes_lowest_free(k.vfs, InodeView::Proc(p), j);
        if j != fd {
            assert(w.file(j) == v.file(j));
        }
    }
}

} // verus!
