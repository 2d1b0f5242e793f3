use simplelinux::interrupts;
use simplelinux::memory::pmm::BitmapFrameAllocator;
use simplelinux::memory::vmm::{NO_EXECUTE, PRESENT, USER_ACCESSIBLE, WRITABLE};
use simplelinux::process::context;
use simplelinux::process::elf::{self, LoadStep};
use simplelinux::process::scheduler::{self, Action, Scheduler, NO_TASK};
use simplelinux::process::task::{BlockReason, KernelStack, Task, TaskId, TaskState, KERNEL_STACK_SIZE};
use simplelinux::timer::Timer;

const ENTRY: u64 = 0x1122_3344_5566_7788;

fn sched(n: usize) -> Scheduler<usize> {
    let mut s = Scheduler::new();
    scheduler::init(&mut s);
    for i in 0..n {
        assert_eq!(scheduler::spawn(&mut s, i, ENTRY), TaskId(i as u32 + 1));
    }
    s
}

fn states(s: &Scheduler<usize>) -> Vec<&'static str> {
    scheduler::snapshot(s).iter().map(|x| x.1).collect()
}

#[test]
fn fresh_stack_returns_into_the_entry() {
    let mut st = KernelStack::new();
    assert_eq!(st.origin, st.buffer.as_ptr() as u64);
    let (base, size) = st.range();
    assert_eq!(base % 16, 0);
    assert_eq!(size % 16, 0);
    assert!(base >= st.origin && base + size <= st.origin + KERNEL_STACK_SIZE as u64);
    assert_eq!((st.aligned_base(), st.usable_size() as u64), (base, size));
    let ctx = st.initial_context(ENTRY);
    assert_eq!(ctx.rsp, base + size - 64);
    let at = (ctx.rsp - st.origin) as usize;
    assert_eq!(&st.buffer[at..at + 48], &[0u8; 48]);
    assert_eq!(&st.buffer[at + 48..at + 56], &ENTRY.to_le_bytes());
}

#[test]
fn initial_context_overwrites_only_its_frame() {
    let mut mem = vec![0xaau8; 256];
    let ctx = context::initial_context(&mut mem, 0x1000, 0x1010, 200, ENTRY);
    // top = 0x10d0, return slot = 0x10c0
    assert_eq!(ctx.rsp, 0x1090);
    assert_eq!(&mem[0x90..0xc0], &[0u8; 48]);
    assert_eq!(&mem[0xc0..0xc8], &ENTRY.to_le_bytes());
    assert!(mem[..0x90].iter().all(|b| *b == 0xaa));
    assert!(mem[0xc8..].iter().all(|b| *b == 0xaa));
}

#[test]
fn task_body_is_taken_once() {
    let mut t = Task::new(TaskId(9), "body", 2, ENTRY);
    assert_eq!((t.id, t.state, t.block, t.slice), (TaskId(9), TaskState::Ready, BlockReason::Nothing, 2));
    assert_eq!(t.stack_range(), t.stack.range());
    assert_eq!(t.take_func(), Some("body"));
    assert_eq!(t.take_func(), None);
}

#[test]
fn start_runs_the_first_ready_task() {
    let mut s = sched(2);
    assert_eq!(states(&s), vec!["ready", "ready"]);
    assert_eq!(scheduler::start(&mut s), Some((NO_TASK, 0)));
    assert_eq!(states(&s), vec!["running", "ready"]);
    assert_eq!(s.current, 0);
    let mut none: Scheduler<usize> = Scheduler::new();
    assert_eq!(scheduler::start(&mut none), None);
}

#[test]
fn yield_goes_round_robin() {
    let mut s = sched(3);
    scheduler::start(&mut s);
    assert_eq!(scheduler::yield_now(&mut s), Action::Switch { from: 0, to: 1 });
    assert_eq!(scheduler::yield_now(&mut s), Action::Switch { from: 1, to: 2 });
    assert_eq!(scheduler::yield_now(&mut s), Action::Switch { from: 2, to: 0 });
    assert_eq!(states(&s), vec!["running", "ready", "ready"]);
}

#[test]
fn a_round_picks_each_runnable_task_once() {
    let mut s = sched(5);
    scheduler::start(&mut s);
    // Task 1 sleeps, task 3 waits for it: tasks 2, 4 and 5 can run.
    scheduler::sleep(&mut s, 0, 100);
    scheduler::yield_now(&mut s);
    scheduler::join(&mut s, TaskId(1));
    for _ in 0..2 {
        let mut picked = Vec::new();
        for _ in 0..3 {
            match s.schedule() {
                Some((_, to)) => picked.push(to),
                None => panic!("nothing to run"),
            }
            assert_eq!(states(&s).iter().filter(|x| **x == "running").count(), 1);
        }
        picked.sort();
        assert_eq!(picked, vec![1, 3, 4]);
    }
}

#[test]
fn spawn_adds_one_task() {
    let mut s = sched(3);
    scheduler::start(&mut s);
    s.exit_current();
    assert_eq!(scheduler::task_count(&s), 2);
    assert_eq!(scheduler::spawn(&mut s, 9, ENTRY), TaskId(4));
    assert_eq!(scheduler::task_count(&s), 3);
    assert_eq!(scheduler::snapshot(&s), vec![(4, "ready"), (2, "running"), (3, "ready")]);
}

#[test]
fn stack_range_is_aligned_and_inside() {
    let st = KernelStack::new();
    let (base, size) = st.range();
    assert!(size == 16384 || size == 16368);
    assert_eq!((base % 16, size % 16), (0, 0));
    assert_eq!(st.range(), (base, size));
}

#[test]
fn yield_alone_switches_to_itself() {
    let mut s = sched(1);
    scheduler::start(&mut s);
    assert_eq!(scheduler::yield_now(&mut s), Action::Switch { from: 0, to: 0 });
    assert_eq!(states(&s), vec!["running"]);
}

#[test]
fn unarmed_scheduler_does_nothing() {
    let mut s: Scheduler<usize> = Scheduler::new();
    scheduler::spawn(&mut s, 0, ENTRY);
    assert!(!scheduler::active(&s));
    assert_eq!(scheduler::yield_now(&mut s), Action::Return);
    assert_eq!(scheduler::sleep(&mut s, 0, 5), Action::Return);
    assert_eq!(scheduler::join(&mut s, TaskId(1)), Action::Return);
    assert_eq!(scheduler::tick(&mut s, 1), Action::Return);
    assert_eq!(states(&s), vec!["ready"]);
}

#[test]
fn slice_runs_out_on_the_third_tick() {
    let mut s = sched(2);
    scheduler::start(&mut s);
    assert_eq!(scheduler::tick(&mut s, 1), Action::Return);
    assert_eq!(scheduler::tick(&mut s, 2), Action::Return);
    assert_eq!(scheduler::tick(&mut s, 3), Action::Switch { from: 0, to: 1 });
    assert_eq!(s.slots[0].as_ref().unwrap().slice, 2);
}

#[test]
fn sleeper_wakes_on_time() {
    let mut s = sched(2);
    scheduler::start(&mut s);
    assert_eq!(scheduler::sleep(&mut s, 10, 3), Action::Switch { from: 0, to: 1 });
    assert_eq!(s.slots[0].as_ref().unwrap().block, BlockReason::Sleep { wake_at: 13 });
    scheduler::tick(&mut s, 12);
    assert_eq!(states(&s), vec!["blocked", "running"]);
    scheduler::tick(&mut s, 13);
    assert_eq!(states(&s), vec!["ready", "running"]);
    assert_eq!(s.slots[0].as_ref().unwrap().block, BlockReason::Nothing);
}

#[test]
fn lone_sleeper_waits_for_its_time() {
    let mut s = sched(1);
    scheduler::start(&mut s);
    assert_eq!(scheduler::sleep(&mut s, 0, 2), Action::Wait);
    scheduler::tick(&mut s, 1);
    assert_eq!(s.awaken(), Action::Wait);
    scheduler::tick(&mut s, 2);
    assert_eq!(s.awaken(), Action::Switch { from: 0, to: 0 });
    assert_eq!(s.awaken(), Action::Return);
    assert_eq!(states(&s), vec!["running"]);
}

#[test]
fn join_waits_for_the_end() {
    let mut s = sched(3);
    scheduler::start(&mut s);
    assert_eq!(scheduler::join(&mut s, TaskId(2)), Action::Switch { from: 0, to: 1 });
    assert_eq!(states(&s), vec!["blocked", "running", "ready"]);
    assert_eq!(s.current_task_body(), Some(1));
    assert_eq!(s.current_task_body(), None);
    assert_eq!(s.exit_current(), Some(2));
    assert_eq!(scheduler::snapshot(&s), vec![(1, "ready"), (3, "running")]);
    assert_eq!(s.find_slot(TaskId(2)), None);
    assert_eq!(s.find_slot(TaskId(3)), Some(2));
    assert_eq!(scheduler::task_count(&s), 2);
    // Already gone: no waiting.
    assert_eq!(scheduler::join(&mut s, TaskId(2)), Action::Return);
}

#[test]
fn exit_wakes_only_its_joiners() {
    let mut s = sched(4);
    scheduler::start(&mut s);
    scheduler::join(&mut s, TaskId(3));
    scheduler::join(&mut s, TaskId(4));
    assert_eq!(s.current, 2);
    assert_eq!(s.exit_current(), Some(3));
    assert_eq!(scheduler::snapshot(&s), vec![(1, "ready"), (2, "blocked"), (4, "running")]);
    assert_eq!(s.exit_current(), Some(0));
    assert_eq!(scheduler::snapshot(&s), vec![(1, "running"), (2, "ready")]);
}

#[test]
fn last_exit_leaves_nothing_to_run() {
    let mut s = sched(1);
    scheduler::start(&mut s);
    assert_eq!(s.exit_current(), None);
    assert_eq!(s.current, NO_TASK);
    assert_eq!(scheduler::task_count(&s), 0);
    assert_eq!(scheduler::tick(&mut s, 1), Action::Return);
    assert_eq!(scheduler::yield_now(&mut s), Action::Return);
}

#[test]
fn slots_are_reused_and_identifiers_are_not() {
    let mut s = sched(2);
    scheduler::start(&mut s);
    s.exit_current();
    assert_eq!(scheduler::spawn(&mut s, 7, ENTRY), TaskId(3));
    assert_eq!(scheduler::snapshot(&s), vec![(3, "ready"), (2, "running")]);
}

#[test]
fn timer_interrupt_ticks_and_preempts() {
    let mut t = Timer::new();
    let mut s = sched(2);
    scheduler::start(&mut s);
    assert_eq!(interrupts::timer_interrupt(&mut t, &mut s), Action::Return);
    assert_eq!(interrupts::timer_interrupt(&mut t, &mut s), Action::Return);
    assert_eq!(interrupts::timer_interrupt(&mut t, &mut s), Action::Switch { from: 0, to: 1 });
    assert_eq!(t.ticks, 3);
}

/// A file header with program headers of 56 bytes behind it.
fn image(headers: &[[u64; 6]], tail: &[u8]) -> Vec<u8> {
    let mut e = vec![0u8; 64];
    e[0..4].copy_from_slice(b"\x7fELF");
    e[4] = 2;
    e[0x18..0x20].copy_from_slice(&0x40_0080u64.to_le_bytes());
    e[0x20..0x28].copy_from_slice(&64u64.to_le_bytes());
    e[0x36..0x38].copy_from_slice(&56u16.to_le_bytes());
    e[0x38..0x3a].copy_from_slice(&(headers.len() as u16).to_le_bytes());
    for h in headers {
        let mut p = vec![0u8; 56];
        p[0..4].copy_from_slice(&(h[0] as u32).to_le_bytes());
        p[4..8].copy_from_slice(&(h[1] as u32).to_le_bytes());
        p[8..16].copy_from_slice(&h[2].to_le_bytes());
        p[16..24].copy_from_slice(&h[3].to_le_bytes());
        p[32..40].copy_from_slice(&h[4].to_le_bytes());
        p[40..48].copy_from_slice(&h[5].to_le_bytes());
        e.extend_from_slice(&p);
    }
    e.extend_from_slice(tail);
    e
}

#[test]
fn little_endian_reads() {
    let b = [1, 2, 3, 4, 5, 6, 7, 8, 9];
    assert_eq!(elf::u16_at(&b, 1), 0x0302);
    assert_eq!(elf::u32_at(&b, 1), 0x0504_0302);
    assert_eq!(elf::u64_at(&b, 1), 0x0908_0706_0504_0302);
}

#[test]
fn load_rejects_other_files() {
    assert!(elf::check(&[0u8; 10]));
    assert!(matches!(elf::load(&[0u8; 10]), Err("not an ELF64 file")));
    let mut e = image(&[], &[]);
    e[1] = b'X';
    assert!(matches!(elf::load(&e), Err("not an ELF64 file")));
    let mut e = image(&[], &[]);
    e[4] = 1;
    assert!(matches!(elf::load(&e), Err("not ELFCLASS64")));
    assert!(matches!(elf::load(&image(&[], &[])[..63]), Err("not an ELF64 file")));
}

#[test]
fn load_plans_segments_and_stack() {
    // A note, an executable segment, and a writable one with a zeroed tail.
    let e = image(
        &[
            [4, 0, 0, 0, 0, 0],
            [1, 5, 232, 0x40_0000, 4, 4],
            [1, 6, 236, 0x40_1ffc, 4, 0x1004],
        ],
        &[0xde, 0xad, 0xbe, 0xef, 1, 2, 3, 4],
    );
    assert!(elf::check(&e));
    let plan = elf::load(&e).ok().unwrap();
    assert_eq!(plan.image.entry, 0x40_0080);
    assert_eq!(plan.image.stack_top, 0x50_0000);
    let stack = PRESENT + USER_ACCESSIBLE + WRITABLE + NO_EXECUTE;
    assert_eq!(
        plan.steps,
        vec![
            LoadStep::MapPages { start: 0x400, end: 0x401, flags: PRESENT + USER_ACCESSIBLE },
            LoadStep::CopyFile { dst: 0x40_0000, offset: 232, len: 4 },
            LoadStep::MapPages { start: 0x401, end: 0x403, flags: stack },
            LoadStep::CopyFile { dst: 0x40_1ffc, offset: 236, len: 4 },
            LoadStep::ZeroFill { dst: 0x40_2000, len: 0x1000 },
            LoadStep::MapPages { start: 0x4ff, end: 0x500, flags: stack },
            LoadStep::MapPages { start: 0x4fe, end: 0x4ff, flags: stack },
            LoadStep::MapPages { start: 0x4fd, end: 0x4fe, flags: stack },
            LoadStep::MapPages { start: 0x4fc, end: 0x4fd, flags: stack },
        ]
    );
}

#[test]
fn check_finds_headers_that_cannot_be_walked() {
    // File bytes behind the end.
    assert!(!elf::check(&image(&[[1, 5, 100, 0x40_0000, 400, 400]], &[])));
    // Pages that are not canonical, or span the hole.
    assert!(!elf::check(&image(&[[1, 5, 0, 0x8000_0000_0000, 0, 1]], &[])));
    assert!(!elf::check(&image(&[[1, 5, 0, 0x7fff_ffff_f000, 0, 0x2000]], &[])));
    assert!(elf::check(&image(&[[1, 5, 0, 0x7fff_ffff_f000, 0, 0x1000]], &[])));
    // Addresses that overflow.
    assert!(!elf::check(&image(&[[1, 5, 0, u64::MAX, 0, 1]], &[])));
    assert!(!elf::check(&image(&[[1, 5, 0, 1, 0, u64::MAX]], &[])));
    // A header that is cut off.
    let e = image(&[[1, 5, 0, 0x40_0000, 0, 0]], &[]);
    assert!(!elf::check(&e[..e.len() - 10]));
    assert!(elf::check(&e[..e.len() - 8]));
    // Headers far outside.
    let mut e = image(&[[1, 5, 0, 0x40_0000, 0, 0]], &[]);
    e[0x20..0x28].copy_from_slice(&u64::MAX.to_le_bytes());
    assert!(!elf::check(&e));
}

#[test]
fn mapped_pages_take_no_frame() {
    let mut a = BitmapFrameAllocator::new();
    a.mark_free_range(0x8000..0x9000);
    assert_eq!(elf::ensure_mapped(&mut a, true), None);
    assert_eq!(elf::ensure_mapped(&mut a, false), Some(0x8000));
    assert_eq!(a.free_count(), 0);
}
