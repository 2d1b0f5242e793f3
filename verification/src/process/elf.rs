//! Minimal ELF64 loader.
//!
//! Static non-relocatable ELF64 files with `PT_LOAD` segments are understood:
//! the program headers are walked, each loadable segment is mapped page by page
//! with the user-accessible bit set, and its file bytes are copied in. The
//! loader says what is to be mapped and copied; the machine carries it out.
use vstd::prelude::*;
use crate::memory::pmm::{law_allocation, BitmapFrameAllocator};
use crate::memory::vmm::{canonical, is_canonical, NO_EXECUTE, PRESENT, USER_ACCESSIBLE, WRITABLE};

verus! {

pub const PT_LOAD: u32 = 1;

pub const PF_W: u32 = 0x2;

pub const PF_X: u32 = 0x1;

/// Virtual top of the user stack (kept well above the 0x400000 text region).
pub const USER_STACK_TOP: u64 = 0x0050_0000;

/// Number of pages backing the user stack.
pub const USER_STACK_PAGES: u64 = 4;

/// Where to jump and what to load into RSP when entering ring 3.
#[derive(Clone, Copy, PartialEq, Eq, Structural, Debug)]
pub struct LoadedImage {
    pub entry: u64,
    pub stack_top: u64,
}

/// One step of loading a program.
#[derive(Clone, Copy, PartialEq, Eq, Structural, Debug)]
pub enum LoadStep {
    /// Map the pages `start..end` that are not mapped yet, zeroed.
    MapPages { start: u64, end: u64, flags: u64 },
    /// Copy `len` bytes of the file from `offset` on to address `dst`.
    CopyFile { dst: u64, offset: u64, len: u64 },
    /// Zero `len` bytes from address `dst` on.
    ZeroFill { dst: u64, len: u64 },
}

/// An image together with the steps that load it.
pub struct LoadPlan {
    pub image: LoadedImage,
    pub steps: Vec<LoadStep>,
}

/// The number whose `n` bytes, least significant first, start at `b[i]`.
pub open spec fn le_value(b: Seq<u8>, i: int, n: nat) -> nat
    decreases n,
{
    if n == 0 {
        0
    } else {
        b[i] as nat + 256 * le_value(b, i + 1, (n - 1) as nat)
    }
}

/// A program header.
pub struct Phdr {
    pub kind: u32,
    pub flags: u32,
    pub offset: u64,
    pub vaddr: u64,
    pub filesz: u64,
    pub memsz: u64,
}

/// The program header at `p`.
pub open spec fn phdr_at(elf: Seq<u8>, p: int) -> Phdr {
    Phdr {
        kind: le_value(elf, p, 4) as u32,
        flags: le_value(elf, p + 4, 4) as u32,
        offset: le_value(elf, p + 8, 8) as u64,
        vaddr: le_value(elf, p + 16, 8) as u64,
        filesz: le_value(elf, p + 32, 8) as u64,
        memsz: le_value(elf, p + 40, 8) as u64,
    }
}

/// Whether the file starts like an ELF file and holds a file header.
pub open spec fn has_magic(elf: Seq<u8>) -> bool {
    elf.len() >= 64 && elf[0] == 0x7f && elf[1] == 0x45 && elf[2] == 0x4c && elf[3] == 0x46
}

pub open spec fn entry_of(elf: Seq<u8>) -> u64 {
    le_value(elf, 0x18, 8) as u64
}

/// Number of program headers.
pub open spec fn phnum(elf: Seq<u8>) -> int {
    le_value(elf, 0x38, 2) as int
}

/// Where program header `i` starts.
pub open spec fn phdr_pos(elf: Seq<u8>, i: int) -> int {
    le_value(elf, 0x20, 8) + i * le_value(elf, 0x36, 2)
}

/// Program header `i`.
pub open spec fn phdr(elf: Seq<u8>, i: int) -> Phdr {
    phdr_at(elf, phdr_pos(elf, i))
}

impl Phdr {
    pub open spec fn first_page(self) -> int {
        self.vaddr as int / 4096
    }

    pub open spec fn end_page(self) -> int {
        (self.vaddr + self.memsz + 4095) / 4096
    }

    /// Whether a segment's pages are canonical addresses and its file bytes are
    /// inside a file of `len` bytes.
    pub open spec fn fits(self, len: nat) -> bool {
        &&& self.vaddr + self.memsz + 4095 <= u64::MAX
        &&& forall|pg: int|
            self.first_page() <= pg < self.end_page() ==> canonical(#[trigger] page_addr(pg))
        &&& self.offset + self.filesz <= len
    }

    /// The page-table flags of the segment: user-accessible, writable as its
    /// header says, executable only if its header says so.
    pub open spec fn pt_flags(self) -> u64 {
        (PRESENT + USER_ACCESSIBLE + if self.flags & PF_W != 0 {
            WRITABLE as int
        } else {
            0
        } + if self.flags & PF_X == 0 {
            NO_EXECUTE as int
        } else {
            0
        }) as u64
    }

    /// The steps that load the segment, if it is loadable.
    pub open spec fn steps(self) -> Seq<LoadStep> {
        if self.kind != PT_LOAD {
            seq![]
        } else {
            let load = seq![
                LoadStep::MapPages {
                    start: self.first_page() as u64,
                    end: self.end_page() as u64,
                    flags: self.pt_flags(),
                },
                LoadStep::CopyFile { dst: self.vaddr, offset: self.offset, len: self.filesz },
            ];
            if self.memsz > self.filesz {
                load.push(
                    LoadStep::ZeroFill {
                        dst: (self.vaddr + self.filesz) as u64,
                        len: (self.memsz - self.filesz) as u64,
                    },
                )
            } else {
                load
            }
        }
    }
}

/// The address of page `pg`.
pub open spec fn page_addr(pg: int) -> u64 {
    (pg * 4096) as u64
}

/// Whether program header `i` lies in the file, and its segment, if it is
/// loadable, fits.
pub open spec fn header_ok(elf: Seq<u8>, i: int) -> bool {
    let p = phdr_pos(elf, i);
    &&& p + 4 <= elf.len()
    &&& phdr(elf, i).kind == PT_LOAD ==> p + 48 <= elf.len() && phdr(elf, i).fits(elf.len())
}

/// Whether every program header of an ELF64 file can be walked.
pub open spec fn walkable(elf: Seq<u8>) -> bool {
    has_magic(elf) && elf[4] == 2 ==> forall|i: int|
        0 <= i < phnum(elf) ==> #[trigger] header_ok(elf, i)
}

/// The steps for the first `n` program headers.
pub open spec fn segment_steps(elf: Seq<u8>, n: nat) -> Seq<LoadStep>
    decreases n,
{
    if n == 0 {
        seq![]
    } else {
        segment_steps(elf, (n - 1) as nat) + phdr(elf, n - 1).steps()
    }
}

/// The steps for the first `n` pages of the user stack, from the top down.
pub open spec fn stack_steps(n: nat) -> Seq<LoadStep>
    decreases n,
{
    if n == 0 {
        seq![]
    } else {
        let page = USER_STACK_TOP as int / 4096 - n;
        stack_steps((n - 1) as nat).push(
            LoadStep::MapPages {
                start: page as u64,
                end: (page + 1) as u64,
                flags: (PRESENT + USER_ACCESSIBLE + WRITABLE + NO_EXECUTE) as u64,
            },
        )
    }
}

/// All steps that load `elf`.
pub open spec fn plan_of(elf: Seq<u8>) -> Seq<LoadStep> {
    segment_steps(elf, phnum(elf) as nat) + stack_steps(USER_STACK_PAGES as nat)
}

proof fn lemma_le_value_bound(b: Seq<u8>, i: int, n: nat)
    ensures
        n == 2 ==> le_value(b, i, n) <= u16::MAX,
        n == 4 ==> le_value(b, i, n) <= u32::MAX,
        n == 8 ==> le_value(b, i, n) <= u64::MAX,
{
    reveal_with_fuel(le_value, 9);
}

pub fn u16_at(b: &[u8], off: usize) -> (r: u16)
    requires
        off + 2 <= b@.len(),
    ensures
        r == le_value(b@, off as int, 2),
{
    proof {
        reveal_with_fuel(le_value, 3);
    }
    b[off] as u16 + 256 * b[off + 1] as u16
}

pub fn u32_at(b: &[u8], off: usize) -> (r: u32)
    requires
        off + 4 <= b@.len(),
    ensures
        r == le_value(b@, off as int, 4),
{
    proof {
        reveal_with_fuel(le_value, 5);
    }
    b[off] as u32 + 256 * (b[off + 1] as u32 + 256 * (b[off + 2] as u32 + 256 * b[off + 3] as u32))
}

pub fn u64_at(b: &[u8], off: usize) -> (r: u64)
    requires
        off + 8 <= b.len(),
    ensures
        r == le_value(b@, off as int, 8),
{
    let low: u32 = u32_at(b, off);
    let high: u32 = u32_at(b, off + 4);
    proof {
        reveal_with_fuel(le_value, 9);
    }
    low as u64 + 0x1_0000_0000 * high as u64
}

fn read_phdr(elf: &[u8], p: usize) -> (r: Phdr)
    requires
        p + 48 <= elf.len(),
    ensures
        r == phdr_at(elf@, p as int),
{
    Phdr {
        kind: u32_at(elf, p),
        flags: u32_at(elf, p + 4),
        offset: u64_at(elf, p + 8),
        vaddr: u64_at(elf, p + 16),
        filesz: u64_at(elf, p + 32),
        memsz: u64_at(elf, p + 40),
    }
}

/// The position of program header `i`, if four bytes of it lie in the file.
fn locate(elf: &[u8], i: usize) -> (r: Option<usize>)
    requires
        has_magic(elf@),
        i < phnum(elf@),
    ensures
        r is Some <==> phdr_pos(elf@, i as int) + 4 <= elf@.len(),
        r is Some ==> r->0 == phdr_pos(elf@, i as int),
{
    let phoff: u64 = u64_at(elf, 0x20);
    let phentsize: u64 = u16_at(elf, 0x36) as u64;
    proof {
        lemma_le_value_bound(elf@, 0x36, 2);
        lemma_le_value_bound(elf@, 0x38, 2);
        assert(i * phentsize <= 0xffff * 0xffff) by (nonlinear_arith)
            requires
                0 <= i <= 0xffff,
                0 <= phentsize <= 0xffff,
        ;
    }
    let skip: u64 = i as u64 * phentsize;
    let len: u64 = elf.len() as u64;
    if phoff > len || skip > len - phoff || len - phoff - skip < 4 {
        return None;
    }
    Some((phoff + skip) as usize)
}

/// Whether the pages of a segment are canonical and its file bytes in the file.
fn fits(h: &Phdr, len: usize) -> (r: bool)
    ensures
        r == h.fits(len as nat),
{
    if h.memsz > u64::MAX - 4095 || h.vaddr > u64::MAX - 4095 - h.memsz {
        return false;
    }
    if h.offset > len as u64 || h.filesz > len as u64 - h.offset {
        return false;
    }
    let first: u64 = h.vaddr / 4096;
    let end: u64 = (h.vaddr + h.memsz + 4095) / 4096;
    if first >= end {
        return true;
    }
    let low: u64 = first * 4096;
    let high: u64 = (end - 1) * 4096;
    let r = is_canonical(low) && is_canonical(high) && ((low < 0x8000_0000_0000) == (high
        < 0x8000_0000_0000));
    proof {
        assert(low == page_addr(first as int));
        assert(high == page_addr(end - 1));
        if canonical(low) && canonical(high) && !r {
            assert(!canonical(page_addr(0x8_0000_0000)));
        }
    }
    r
}

/// Whether [`load`] can walk the program headers of `elf`.
pub fn check(elf: &[u8]) -> (r: bool)
    ensures
        r == walkable(elf@),
{
    if elf.len() < 64 || elf[0] != 0x7f || elf[1] != 0x45 || elf[2] != 0x4c || elf[3] != 0x46
        || elf[4] != 2 {
        return true;
    }
    let n: usize = u16_at(elf, 0x38) as usize;
    let mut i: usize = 0;
    while i < n
        invariant
            has_magic(elf@),
            elf@[4] == 2,
            n == phnum(elf@),
            i <= n,
            forall|j: int| 0 <= j < i ==> #[trigger] header_ok(elf@, j),
        decreases n - i,
    {
        match locate(elf, i) {
            None => {
                assert(!header_ok(elf@, i as int));
                return false;
            },
            Some(p) => {
                proof {
                    lemma_le_value_bound(elf@, p as int, 4);
                }
                if u32_at(elf, p) == PT_LOAD {
                    if elf.len() - p < 48 {
                        assert(!header_ok(elf@, i as int));
                        return false;
                    }
                    let h = read_phdr(elf, p);
                    if !fits(&h, elf.len()) {
                        assert(!header_ok(elf@, i as int));
                        return false;
                    }
                }
            },
        }
        assert(header_ok(elf@, i as int));
        i = i + 1;
    }
    true
}

/// Append the steps that load the segment of `h`.
fn push_segment(steps: &mut Vec<LoadStep>, h: &Phdr, len: usize)
    requires
        h.kind == PT_LOAD,
        h.fits(len as nat),
    ensures
        final(steps)@ == old(steps)@ + h.steps(),
{
    let mut pt_flags: u64 = PRESENT + USER_ACCESSIBLE;
    if h.flags & PF_W != 0 {
        pt_flags = pt_flags + WRITABLE;
    }
    if h.flags & PF_X == 0 {
        pt_flags = pt_flags + NO_EXECUTE;
    }
    let start_page: u64 = h.vaddr / 4096;
    let end_page: u64 = (h.vaddr + h.memsz + 4095) / 4096;
    steps.push(LoadStep::MapPages { start: start_page, end: end_page, flags: pt_flags });
    steps.push(LoadStep::CopyFile { dst: h.vaddr, offset: h.offset, len: h.filesz });
    if h.memsz > h.filesz {
        steps.push(LoadStep::ZeroFill { dst: h.vaddr + h.filesz, len: h.memsz - h.filesz });
    }
    assert(steps@ =~= old(steps)@ + h.steps());
}

/// Plan how to load `elf`; the entry point and the user stack top come with it.
pub fn load(elf: &[u8]) -> (r: Result<LoadPlan, &'static str>)
    requires
        walkable(elf@),
    ensures
        match r {
            Ok(plan) => {
                &&& has_magic(elf@) && elf@[4] == 2
                &&& plan.image == (LoadedImage {
                    entry: entry_of(elf@),
                    stack_top: USER_STACK_TOP,
                })
                &&& plan.steps@ == plan_of(elf@)
            },
            Err(e) => if !has_magic(elf@) {
                e == "not an ELF64 file"
            } else {
                elf@[4] != 2 && e == "not ELFCLASS64"
            },
        },
{
    if elf.len() < 64 || elf[0] != 0x7f || elf[1] != 0x45 || elf[2] != 0x4c || elf[3] != 0x46 {
        return Err("not an ELF64 file");
    }
    if elf[4] != 2 {
        return Err("not ELFCLASS64");
    }
    let entry: u64 = u64_at(elf, 0x18);
    let n: usize = u16_at(elf, 0x38) as usize;
    let mut steps: Vec<LoadStep> = Vec::new();
    let mut i: usize = 0;
    while i < n
        invariant
            has_magic(elf@),
            elf@[4] == 2,
            walkable(elf@),
            n == phnum(elf@),
            i <= n,
            steps@ == segment_steps(elf@, i as nat),
        decreases n - i,
    {
        assert(header_ok(elf@, i as int));
        if let Some(p) = locate(elf, i) {
            proof {
                lemma_le_value_bound(elf@, p as int, 4);
            }
            if u32_at(elf, p) == PT_LOAD {
                let h = read_phdr(elf, p);
                push_segment(&mut steps, &h, elf.len());
            } else {
                assert(steps@ =~= steps@ + phdr(elf@, i as int).steps());
            }
        }
        i = i + 1;
    }

    let mut k: u64 = 0;
    let ghost segments = steps@;
    assert(segments =~= segments + stack_steps(0));
    while k < USER_STACK_PAGES
        invariant
            k <= USER_STACK_PAGES,
            steps@ == segments + stack_steps(k as nat),
        decreases USER_STACK_PAGES - k,
    {
        let addr: u64 = USER_STACK_TOP - (k + 1) * 4096;
        let ghost before = steps@;
        steps.push(
            LoadStep::MapPages {
                start: addr / 4096,
                end: addr / 4096 + 1,
                flags: PRESENT + USER_ACCESSIBLE + WRITABLE + NO_EXECUTE,
            },
        );
        k = k + 1;
        assert(steps@ =~= segments + stack_steps(k as nat));
    }
    Ok(LoadPlan { image: LoadedImage { entry, stack_top: USER_STACK_TOP }, steps })
}

/// Decide about one page that is to be mapped: nothing is done for a page that is
/// mapped already; else a frame is allocated for it.
pub fn ensure_mapped(frames: &mut BitmapFrameAllocator, mapped: bool) -> (r: Option<u64>)
    requires
        old(frames).wf(),
        mapped || old(frames)@.free_count() > 0,
    ensures
        final(frames).wf(),
        mapped ==> r is None && final(frames)@ == old(frames)@,
        !mapped ==> r is Some && (r, final(frames)@) == old(frames)@.allocated(),
{
    if mapped {
        return None;
    }
    proof {
        law_allocation(frames@);
    }
    frames.allocate_frame()
}

/// What memory holds: a byte at each address that is mapped.
pub type Memory = spec_fn(int) -> Option<u8>;

/// What one step does to memory.
pub open spec fn stepped(m: Memory, step: LoadStep, file: Seq<u8>) -> Memory {
    match step {
        LoadStep::MapPages { start, end, .. } => |a: int|
            if m(a) is None && start * 4096 <= a < end * 4096 {
                Some(0u8)
            } else {
                m(a)
            },
        LoadStep::CopyFile { dst, offset, len } => |a: int|
            if dst <= a < dst + len {
                Some(file[offset + (a - dst)])
            } else {
                m(a)
            },
        LoadStep::ZeroFill { dst, len } => |a: int|
            if dst <= a < dst + len {
                Some(0u8)
            } else {
                m(a)
            },
    }
}

/// What the steps, one after the other, do to memory.
pub open spec fn ran(m: Memory, steps: Seq<LoadStep>, file: Seq<u8>) -> Memory
    decreases steps.len(),
{
    if steps.len() == 0 {
        m
    } else {
        stepped(ran(m, steps.drop_last(), file), steps.last(), file)
    }
}

impl Phdr {
    /// Whether loading the segment writes address `a`.
    pub open spec fn writes(self, a: int) -> bool {
        self.kind == PT_LOAD && (self.vaddr <= a < self.vaddr + self.filesz || self.vaddr <= a
            < self.vaddr + self.memsz)
    }
}

proof fn lemma_ran_concat(m: Memory, s: Seq<LoadStep>, t: Seq<LoadStep>, file: Seq<u8>)
    ensures
        ran(m, s + t, file) == ran(ran(m, s, file), t, file),
    decreases t.len(),
{
    if t.len() == 0 {
        assert(s + t =~= s);
    } else {
        assert((s + t).drop_last() =~= s + t.drop_last());
        lemma_ran_concat(m, s, t.drop_last(), file);
    }
}

proof fn lemma_segment_effect(m: Memory, h: Phdr, file: Seq<u8>, a: int)
    requires
        h.kind == PT_LOAD ==> h.fits(file.len()),
    ensures
        h.writes(a) ==> ran(m, h.steps(), file)(a) == Some(
            if a - h.vaddr < h.filesz {
                file[h.offset + (a - h.vaddr)]
            } else {
                0u8
            },
        ),
        !h.writes(a) && m(a) is Some ==> ran(m, h.steps(), file)(a) == m(a),
{
    let s = h.steps();
    reveal_with_fuel(ran, 4);
    if h.kind == PT_LOAD {
        if h.memsz > h.filesz {
            assert(s.drop_last().drop_last().drop_last() =~= seq![]);
            assert(s.drop_last().drop_last().last() == s[0]);
            assert(s.drop_last().last() == s[1]);
        } else {
            assert(s.drop_last().drop_last() =~= seq![]);
            assert(s.drop_last().last() == s[0]);
        }
    }
}

proof fn lemma_segments_keep(m: Memory, elf: Seq<u8>, i: nat, n: nat, a: int)
    requires
        i <= n <= phnum(elf),
        forall|j: int| 0 <= j < phnum(elf) ==> #[trigger] header_ok(elf, j),
        ran(m, segment_steps(elf, i), elf)(a) is Some,
        forall|j: int| i <= j < n ==> !#[trigger] phdr(elf, j).writes(a),
    ensures
        ran(m, segment_steps(elf, n), elf)(a) == ran(m, segment_steps(elf, i), elf)(a),
    decreases n - i,
{
    if i < n {
        let k = (n - 1) as nat;
        lemma_segments_keep(m, elf, i, k, a);
        lemma_ran_concat(m, segment_steps(elf, k), phdr(elf, k as int).steps(), elf);
        assert(header_ok(elf, k as int));
        assert(!phdr(elf, k as int).writes(a));
        lemma_segment_effect(
            ran(m, segment_steps(elf, k), elf),
            phdr(elf, k as int),
            elf,
            a,
        );
    }
}

proof fn lemma_stack_effect(m: Memory, n: nat, file: Seq<u8>, a: int)
    requires
        n <= USER_STACK_PAGES,
    ensures
        m(a) is Some ==> ran(m, stack_steps(n), file)(a) == m(a),
        USER_STACK_TOP - n * 4096 <= a < USER_STACK_TOP ==> ran(m, stack_steps(n), file)(a) is Some,
    decreases n,
{
    if n > 0 {
        let k = (n - 1) as nat;
        lemma_stack_effect(m, k, file, a);
        assert(stack_steps(n).drop_last() =~= stack_steps(k));
    }
}

/// Loading a program puts each byte of a segment's file range at its address and
/// zeros behind them up to the segment's size, at every address that no later
/// segment writes.
pub proof fn law_segment_is_loaded(m: Memory, elf: Seq<u8>, i: int, a: int)
    requires
        has_magic(elf),
        elf[4] == 2,
        walkable(elf),
        0 <= i < phnum(elf),
        phdr(elf, i).writes(a),
        forall|j: int| i < j < phnum(elf) ==> !#[trigger] phdr(elf, j).writes(a),
    ensures
        ran(m, plan_of(elf), elf)(a) == Some(
            if a - phdr(elf, i).vaddr < phdr(elf, i).filesz {
                elf[phdr(elf, i).offset + (a - phdr(elf, i).vaddr)]
            } else {
                0u8
            },
        ),
{
    let n = phnum(elf) as nat;
    let k = i as nat;
    assert(header_ok(elf, i));
    lemma_ran_concat(m, segment_steps(elf, k), phdr(elf, i).steps(), elf);
    lemma_segment_effect(ran(m, segment_steps(elf, k), elf), phdr(elf, i), elf, a);
    assert(segment_steps(elf, k + 1) == segment_steps(elf, k) + phdr(elf, i).steps());
    lemma_segments_keep(m, elf, k + 1, n, a);
    lemma_ran_concat(m, segment_steps(elf, n), stack_steps(USER_STACK_PAGES as nat), elf);
    lemma_stack_effect(ran(m, segment_steps(elf, n), elf), USER_STACK_PAGES as nat, elf, a);
}

/// Loading a program leaves its whole user stack mapped, below the stack top that
/// comes with it.
pub proof fn law_stack_is_mapped(m: Memory, elf: Seq<u8>, a: int)
    requires
        USER_STACK_TOP - USER_STACK_PAGES * 4096 <= a < USER_STACK_TOP,
    ensures
        ran(m, plan_of(elf), elf)(a) is Some,
{
    let n = phnum(elf) as nat;
    lemma_ran_concat(m, segment_steps(elf, n), stack_steps(USER_STACK_PAGES as nat), elf);
    lemma_stack_effect(ran(m, segment_steps(elf, n), elf), USER_STACK_PAGES as nat, elf, a);
}

/// Numbers in the file are little-endian: each byte weighs 256 times the one before.
pub proof fn law_little_endian(b: Seq<u8>, i: int)
    ensures
        le_value(b, i, 2) == b[i] + b[i + 1] * 0x100,
        le_value(b, i, 4) == b[i] + b[i + 1] * 0x100 + b[i + 2] * 0x1_0000 + b[i + 3] * 0x100_0000,
        le_value(b, i, 8) == b[i] + b[i + 1] * 0x100 + b[i + 2] * 0x1_0000 + b[i + 3] * 0x100_0000
            + b[i + 4] * 0x1_0000_0000 + b[i + 5] * 0x100_0000_0000 + b[i + 6]
            * 0x1_0000_0000_0000 + b[i + 7] * 0x100_0000_0000_0000,
{
    reveal_with_fuel(le_value, 9);
}

/// Where the file header and the program headers keep their numbers.
pub proof fn law_header_fields(elf: Seq<u8>, i: int)
    ensures
        entry_of(elf) == le_value(elf, 24, 8),
        phnum(elf) == elf[56] + elf[57] * 256,
        phdr_pos(elf, 0) == le_value(elf, 32, 8),
        phdr_pos(elf, i + 1) - phdr_pos(elf, i) == elf[54] + elf[55] * 256,
        phdr(elf, i).kind == le_value(elf, phdr_pos(elf, i), 4),
        phdr(elf, i).flags == le_value(elf, phdr_pos(elf, i) + 4, 4),
        phdr(elf, i).offset == le_value(elf, phdr_pos(elf, i) + 8, 8),
        phdr(elf, i).vaddr == le_value(elf, phdr_pos(elf, i) + 16, 8),
        phdr(elf, i).filesz == le_value(elf, phdr_pos(elf, i) + 32, 8),
        phdr(elf, i).memsz == le_value(elf, phdr_pos(elf, i) + 40, 8),
{
    let p = phdr_pos(elf, i);
    law_little_endian(elf, 54);
    law_little_endian(elf, 56);
    lemma_le_value_bound(elf, 24, 8);
    lemma_le_value_bound(elf, p, 4);
    lemma_le_value_bound(elf, p + 4, 4);
    lemma_le_value_bound(elf, p + 8, 8);
    lemma_le_value_bound(elf, p + 16, 8);
    lemma_le_value_bound(elf, p + 32, 8);
    lemma_le_value_bound(elf, p + 40, 8);
    let e = le_value(elf, 54, 2) as int;
    assert((i + 1) * e == i * e + e) by (nonlinear_arith);
    assert(0 * e == 0);
}

/// Whether a step maps the pages of the segment `h` and no other: from the page of
/// its first byte to that of its last, present and user-accessible, writable exactly
/// if the second bit of its flags is set, not executable exactly if the first is
/// clear, and nothing else.
pub open spec fn maps_segment(step: LoadStep, h: Phdr) -> bool {
    match step {
        LoadStep::MapPages { start, end, flags } => {
            &&& h.kind == 1
            &&& start * 4096 <= h.vaddr < (start + 1) * 4096
            &&& (end - 1) * 4096 < h.vaddr + h.memsz <= end * 4096
            &&& flags % 2 == 1
            &&& flags / 2 % 2 == h.flags / 2 % 2
            &&& flags / 4 % 2 == 1
            &&& flags / 8 % 0x1000_0000_0000_0000 == 0
            &&& flags / 0x8000_0000_0000_0000 == 1 - h.flags % 2
        },
        _ => false,
    }
}

/// Whether a step maps one page of the user stack, the last 16 KiB below 0x500000:
/// present, writable, user-accessible and not executable.
pub open spec fn maps_stack(step: LoadStep) -> bool {
    match step {
        LoadStep::MapPages { start, end, flags } => {
            &&& 0x4f_c000 <= start * 4096 < 0x50_0000
            &&& end == start + 1
            &&& flags == 0x8000_0000_0000_0000 + 4 + 2 + 1
        },
        _ => false,
    }
}

proof fn lemma_segment_flags(h: Phdr)
    requires
        h.kind == 1,
        h.vaddr + h.memsz + 4095 <= u64::MAX,
    ensures
        maps_segment(h.steps()[0], h),
        forall|k: int|
            0 <= k < h.steps().len() && #[trigger] h.steps()[k] is MapPages ==> maps_segment(
                h.steps()[k],
                h,
            ),
{
    let f = h.flags;
    assert((f & 2 != 0) == (f / 2 % 2 == 1)) by (bit_vector);
    assert((f & 1 == 0) == (f % 2 == 0)) by (bit_vector);
    assert(h.steps()[1] is CopyFile);
}

proof fn lemma_steps_of(elf: Seq<u8>, n: nat, i: int)
    requires
        0 <= i < n,
    ensures
        exists|b: int|
            0 <= b && b + phdr(elf, i).steps().len() <= segment_steps(elf, n).len()
                && #[trigger] segment_steps(elf, n).subrange(b, b + phdr(elf, i).steps().len())
                == phdr(elf, i).steps(),
    decreases n,
{
    let m = (n - 1) as nat;
    let s = phdr(elf, i).steps();
    let all = segment_steps(elf, n);
    if i == m {
        let b = segment_steps(elf, m).len() as int;
        assert(all.subrange(b, b + s.len()) =~= s);
    } else {
        lemma_steps_of(elf, m, i);
        let part = segment_steps(elf, m);
        let b = choose|b: int|
            0 <= b && b + s.len() <= part.len() && #[trigger] part.subrange(b, b + s.len()) == s;
        assert(all.subrange(b, b + s.len()) =~= part.subrange(b, b + s.len()));
    }
}

proof fn lemma_step_origin(elf: Seq<u8>, n: nat, k: int)
    requires
        0 <= k < segment_steps(elf, n).len(),
    ensures
        exists|i: int, j: int|
            0 <= i < n && 0 <= j < phdr(elf, i).steps().len() && segment_steps(elf, n)[k]
                == #[trigger] phdr(elf, i).steps()[j],
    decreases n,
{
    let m = (n - 1) as nat;
    let part = segment_steps(elf, m);
    if k < part.len() {
        lemma_step_origin(elf, m, k);
        let (i, j) = choose|i: int, j: int|
            0 <= i < m && 0 <= j < phdr(elf, i).steps().len() && part[k] == #[trigger] phdr(
                elf,
                i,
            ).steps()[j];
        assert(segment_steps(elf, n)[k] == phdr(elf, i).steps()[j]);
    } else {
        let j = k - part.len();
        assert(segment_steps(elf, n)[k] == phdr(elf, m as int).steps()[j]);
    }
}

proof fn lemma_stack_flags(n: nat)
    requires
        n <= 4,
    ensures
        stack_steps(n).len() == n,
        forall|k: int| 0 <= k < n ==> maps_stack(#[trigger] stack_steps(n)[k]),
        forall|k: int| 0 <= k < n ==> (#[trigger] stack_steps(n)[k])->start == 0x4ff - k,
    decreases n,
{
    if n > 0 {
        lemma_stack_flags((n - 1) as nat);
    }
}

/// Every page of a loadable segment is mapped, with flags that are those of its
/// header: writable if and only if the header says so, executable if and only if the
/// header says so.
pub proof fn law_segment_is_mapped_as_its_header_says(elf: Seq<u8>, i: int)
    requires
        has_magic(elf),
        elf[4] == 2,
        walkable(elf),
        0 <= i < phnum(elf),
        phdr(elf, i).kind == 1,
    ensures
        exists|k: int|
            0 <= k < plan_of(elf).len() && maps_segment(#[trigger] plan_of(elf)[k], phdr(elf, i)),
{
    assert(header_ok(elf, i));
    let s = phdr(elf, i).steps();
    let n = phnum(elf) as nat;
    let segments = segment_steps(elf, n);
    lemma_segment_flags(phdr(elf, i));
    lemma_steps_of(elf, n, i);
    let b = choose|b: int|
        0 <= b && b + s.len() <= segments.len() && #[trigger] segments.subrange(b, b + s.len()) == s;
    assert(segments.subrange(b, b + s.len())[0] == segments[b]);
    assert(plan_of(elf)[b] == segments[b]);
}

/// Nothing else is mapped: every mapping step is that of a loadable segment or of one
/// of the four stack pages, and each of these four is mapped.
pub proof fn law_no_other_page_is_mapped(elf: Seq<u8>, k: int)
    requires
        has_magic(elf),
        elf[4] == 2,
        walkable(elf),
        0 <= k < plan_of(elf).len(),
    ensures
        plan_of(elf)[k] is MapPages ==> maps_stack(plan_of(elf)[k]) || exists|i: int|
            0 <= i < phnum(elf) && maps_segment(plan_of(elf)[k], #[trigger] phdr(elf, i)),
        plan_of(elf).len() >= 4,
        forall|j: int|
            0 <= j < 4 ==> maps_stack(#[trigger] plan_of(elf)[plan_of(elf).len() - 1 - j]) && plan_of(
                elf,
            )[plan_of(elf).len() - 1 - j]->start == 0x4fc + j,
{
    let n = phnum(elf) as nat;
    let segments = segment_steps(elf, n);
    let plan = plan_of(elf);
    lemma_stack_flags(4);
    assert forall|j: int| 0 <= j < 4 implies maps_stack(#[trigger] plan[plan.len() - 1 - j])
        && plan[plan.len() - 1 - j]->start == 0x4fc + j by {
        assert(plan[plan.len() - 1 - j] == stack_steps(4)[3 - j]);
    }
    if k >= segments.len() {
        assert(plan[k] == stack_steps(4)[k - segments.len()]);
    } else {
        assert(plan[k] == segments[k]);
        lemma_step_origin(elf, n, k);
        let (i, j) = choose|i: int, j: int|
            0 <= i < n && 0 <= j < phdr(elf, i).steps().len() && segments[k] == #[trigger] phdr(
                elf,
                i,
            ).steps()[j];
        assert(header_ok(elf, i));
        if phdr(elf, i).kind == 1 {
            lemma_segment_flags(phdr(elf, i));
        }
    }
}

/// Which bytes a segment writes: those of a loadable one, from its address on, as many
/// as the greater of its two sizes says.
pub proof fn law_written_range(h: Phdr, a: int)
    ensures
        h.writes(a) <==> h.kind == 1 && 0 <= a - h.vaddr && (a - h.vaddr < h.filesz || a - h.vaddr
            < h.memsz),
{
}

/// Which segments can be loaded: one whose file bytes end with the file at the latest
/// and whose memory lies in the lower half of the address space; none whose file bytes
/// reach beyond the file, and none that crosses the end of the lower half.
pub proof fn law_segment_limits(h: Phdr, len: nat)
    ensures
        h.offset + h.filesz <= len && h.vaddr + h.memsz <= 0x8000_0000_0000 ==> h.fits(len),
        h.offset + h.filesz > len ==> !h.fits(len),
        h.vaddr <= 0x8000_0000_0000 < h.vaddr + h.memsz ==> !h.fits(len),
        h.vaddr + h.memsz + 4095 > 0xffff_ffff_ffff_ffff ==> !h.fits(len),
{
    if h.vaddr <= 0x8000_0000_0000 < h.vaddr + h.memsz {
        assert(!canonical(page_addr(0x8_0000_0000)));
    }
}

/// Loading takes nothing away: a byte that was mapped before and that no segment
/// writes is kept.
pub proof fn law_other_bytes_are_kept(m: Memory, elf: Seq<u8>, a: int)
    requires
        has_magic(elf),
        elf[4] == 2,
        walkable(elf),
        m(a) is Some,
        forall|j: int| 0 <= j < phnum(elf) ==> !#[trigger] phdr(elf, j).writes(a),
    ensures
        ran(m, plan_of(elf), elf)(a) == m(a),
{
    let n = phnum(elf) as nat;
    assert(segment_steps(elf, 0) =~= seq![]);
    assert(ran(m, segment_steps(elf, 0), elf) == m);
    lemma_segments_keep(m, elf, 0, n, a);
    lemma_ran_concat(m, segment_steps(elf, n), stack_steps(USER_STACK_PAGES as nat), elf);
    lemma_stack_effect(ran(m, segment_steps(elf, n), elf), USER_STACK_PAGES as nat, elf, a);
}

} // verus!
