//! Segment table and selectors.
//!
//! The boot loader already runs with `CS = 0x8`, `DS/SS = 0x10`, so the kernel
//! code segment has to stand at selector `0x8` and the kernel data segment at
//! `0x10`. The ring-3 segments follow, and finally the task-state segment.
use vstd::prelude::*;
use x86_64::structures::gdt::{Descriptor, GlobalDescriptorTable};

verus! {

/// IST slot reserved for the double-fault handler.
pub const DOUBLE_FAULT_IST_INDEX: u16 = 0;

/// Size of the dedicated double-fault stack (5 pages).
pub const STACK_SIZE: usize = 20480;

/// Size of the ring3 -> ring0 (syscall) kernel stack.
pub const PRIV_STACK_SIZE: usize = 16384;

/// Words that the segment table can hold.
pub const GDT_WORDS: usize = 8;

/// `x86_64::structures::gdt::GlobalDescriptorTable`: a table of segment
/// descriptor words, the first of them zero.
#[verifier::external_type_specification]
#[verifier::external_body]
pub struct ExGlobalDescriptorTable<const MAX: usize>(GlobalDescriptorTable<MAX>);

/// The words that a segment table holds.
pub uninterp spec fn gdt_words(g: GlobalDescriptorTable<8>) -> Seq<u64>;

/// A segment descriptor: one word, or two for a system segment.
#[derive(Clone, Copy, PartialEq, Eq, Structural, Debug)]
pub enum SegmentWords {
    User(u64),
    System(u64, u64),
}

impl SegmentWords {
    /// The words, in order.
    pub open spec fn words(self) -> Seq<u64> {
        match self {
            SegmentWords::User(w) => seq![w],
            SegmentWords::System(low, high) => seq![low, high],
        }
    }

    /// The privilege level: bits 45 and 46 of the first word.
    pub open spec fn dpl(self) -> int {
        match self {
            SegmentWords::User(w) => w as int / 0x2000_0000_0000 % 4,
            SegmentWords::System(low, _) => low as int / 0x2000_0000_0000 % 4,
        }
    }
}

/// `GlobalDescriptorTable::new`: a table with room for eight words that holds the
/// null descriptor.
#[verifier::external_body]
fn new_table() -> (r: GlobalDescriptorTable<8>)
    ensures
        gdt_words(r) == seq![0u64],
{
    GlobalDescriptorTable::new()
}

/// `GlobalDescriptorTable::append`: the words of the descriptor are appended. The
/// selector is eight times the place of the first word, plus the privilege level.
#[verifier::external_body]
fn append(g: &mut GlobalDescriptorTable<8>, d: SegmentWords) -> (r: u16)
    requires
        gdt_words(*old(g)).len() + d.words().len() <= GDT_WORDS,
    ensures
        gdt_words(*final(g)) == gdt_words(*old(g)) + d.words(),
        r == gdt_words(*old(g)).len() * 8 + d.dpl(),
{
    let descriptor = match d {
        SegmentWords::User(w) => Descriptor::UserSegment(w),
        SegmentWords::System(low, high) => Descriptor::SystemSegment(low, high),
    };
    g.append(descriptor).0
}

/// `Descriptor::kernel_code_segment`: a present segment without limits,
/// 64-bit, executable, ring 0.
#[verifier::external_body]
fn kernel_code_segment() -> (r: SegmentWords)
    ensures
        r == SegmentWords::User(0x00af_9b00_0000_ffff),
{
    match Descriptor::kernel_code_segment() {
        Descriptor::UserSegment(w) => SegmentWords::User(w),
        Descriptor::SystemSegment(low, high) => SegmentWords::System(low, high),
    }
}

/// `Descriptor::kernel_data_segment`: a present segment without limits,
/// writable, ring 0.
#[verifier::external_body]
fn kernel_data_segment() -> (r: SegmentWords)
    ensures
        r == SegmentWords::User(0x00cf_9300_0000_ffff),
{
    match Descriptor::kernel_data_segment() {
        Descriptor::UserSegment(w) => SegmentWords::User(w),
        Descriptor::SystemSegment(low, high) => SegmentWords::System(low, high),
    }
}

/// `Descriptor::user_data_segment`: a present segment without limits,
/// writable, ring 3.
#[verifier::external_body]
fn user_data_segment() -> (r: SegmentWords)
    ensures
        r == SegmentWords::User(0x00cf_f300_0000_ffff),
{
    match Descriptor::user_data_segment() {
        Descriptor::UserSegment(w) => SegmentWords::User(w),
        Descriptor::SystemSegment(low, high) => SegmentWords::System(low, high),
    }
}

/// `Descriptor::user_code_segment`: a present segment without limits,
/// 64-bit, executable, ring 3.
#[verifier::external_body]
fn user_code_segment() -> (r: SegmentWords)
    ensures
        r == SegmentWords::User(0x00af_fb00_0000_ffff),
{
    match Descriptor::user_code_segment() {
        Descriptor::UserSegment(w) => SegmentWords::User(w),
        Descriptor::SystemSegment(low, high) => SegmentWords::System(low, high),
    }
}

/// Where the segments stand in the table.
#[derive(Clone, Copy, PartialEq, Eq, Structural, Debug)]
pub struct Selectors {
    pub code: u16,
    pub data: u16,
    pub user_data: u16,
    pub user_code: u16,
    pub tss: u16,
}

/// The segment table with its selectors.
pub struct Gdt {
    pub table: GlobalDescriptorTable<8>,
    pub selectors: Selectors,
}

/// Build the segment table around the descriptor of a ring-0 task-state segment.
pub fn build(tss_low: u64, tss_high: u64) -> (r: Gdt)
    requires
        SegmentWords::System(tss_low, tss_high).dpl() == 0,
    ensures
        r.selectors == (Selectors {
            code: 0x08,
            data: 0x10,
            user_data: 0x1b,
            user_code: 0x23,
            tss: 0x28,
        }),
        gdt_words(r.table) == seq![
            0,
            0x00af_9b00_0000_ffff,
            0x00cf_9300_0000_ffff,
            0x00cf_f300_0000_ffff,
            0x00af_fb00_0000_ffff,
            tss_low,
            tss_high,
        ],
{
    let mut table = new_table();
    let code: u16 = append(&mut table, kernel_code_segment());
    let data: u16 = append(&mut table, kernel_data_segment());
    let user_data: u16 = append(&mut table, user_data_segment());
    let user_code: u16 = append(&mut table, user_code_segment());
    let tss: u16 = append(&mut table, SegmentWords::System(tss_low, tss_high));
    assert(gdt_words(table) =~= seq![
        0,
        0x00af_9b00_0000_ffff,
        0x00cf_9300_0000_ffff,
        0x00cf_f300_0000_ffff,
        0x00af_fb00_0000_ffff,
        tss_low,
        tss_high,
    ]);
    Gdt { table, selectors: Selectors { code, data, user_data, user_code, tss } }
}

/// User-mode code selector (RPL 3) to load via `iretq`.
pub fn user_code_selector(s: &Selectors) -> (r: u16)
    ensures
        r == s.user_code | 0x3,
{
    s.user_code | 0x3
}

/// User-mode data selector (RPL 3) to load via `iretq`.
pub fn user_data_selector(s: &Selectors) -> (r: u16)
    ensures
        r == s.user_data | 0x3,
{
    s.user_data | 0x3
}

/// Kernel code selector (RPL 0), used to fake a return to ring 0.
pub fn kernel_code_selector(s: &Selectors) -> (r: u16)
    ensures
        r == s.code,
{
    s.code
}

/// Setting the requested privilege level of a selector keeps its table index, and
/// leaves a selector that asks for ring 3 already as it is.
pub proof fn law_user_selector_asks_for_ring3(s: u16)
    ensures
        (s | 0x3) / 8 == s / 8,
        (s | 0x3) % 4 == 3,
        s % 4 == 3 ==> s | 0x3 == s,
{
    assert((s | 0x3) / 8 == s / 8) by (bit_vector);
    assert((s | 0x3) % 4 == 3) by (bit_vector);
    assert(s % 4 == 3 ==> s | 0x3 == s) by (bit_vector);
}

} // verus!
