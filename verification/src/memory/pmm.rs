//! Physical memory manager: a bitmap frame allocator.
//!
//! Every 4 KiB physical frame is tracked with a single bit (1 = used, 0 = free).
//! Keeping the bitmap as plain bits (rather than a free-list) is the simplest
//! choice: allocation is "find the first cleared bit".
use std::ops::Range;
use vstd::prelude::*;

verus! {

/// Bytes in one page / frame.
pub const PAGE_SIZE: u64 = 4096;

/// Highest physical byte the bitmap can describe: 1 GiB.
pub const MAX_PHYS: usize = 0x4000_0000;

/// Total number of 4 KiB frames covered by the bitmap.
pub const NUM_FRAMES: usize = 0x4_0000;

/// Number of `u64` words needed to store `NUM_FRAMES` bits.
pub const WORDS: usize = 4096;

/// Bit `b` of `w`.
pub open spec fn bit(w: u64, b: int) -> bool {
    (w >> (b as u64)) & 1 == 1
}

/// How many of the lowest `n` bits of `w` are set.
pub open spec fn ones(w: u64, n: nat) -> nat
    decreases n,
{
    if n == 0 {
        0
    } else {
        ones(w, (n - 1) as nat) + if bit(w, n - 1) {
            1nat
        } else {
            0nat
        }
    }
}

/// `u64::count_ones` is the number of ones among the 64 bits of its argument.
pub assume_specification[ u64::count_ones ](w: u64) -> (r: u32)
    ensures
        r == ones(w, 64),
;

/// How many entries of `s` are true.
pub open spec fn count_used(s: Seq<bool>) -> nat
    decreases s.len(),
{
    if s.len() == 0 {
        0
    } else {
        count_used(s.drop_last()) + if s.last() {
            1nat
        } else {
            0nat
        }
    }
}

/// A conservative bitmap allocator. All bits start set (`used`), so a frame is
/// only ever handed out after its range was explicitly released.
pub struct BitmapFrameAllocator {
    pub used: [u64; WORDS],
    /// Round-robin hint so repeated allocations don't rescan from frame 0.
    pub next_word: usize,
}

/// The state of a [`BitmapFrameAllocator`]: whether each frame is used, and
/// the group of 64 frames where the next search starts.
#[verifier::ext_equal]
pub struct Frames {
    pub used: Seq<bool>,
    pub hint: int,
}

impl View for BitmapFrameAllocator {
    type V = Frames;

    open spec fn view(&self) -> Frames {
        Frames {
            used: Seq::new(NUM_FRAMES as nat, |f: int| bit(self.used[f / 64], f % 64)),
            hint: self.next_word as int,
        }
    }
}

/// The first frame that the byte range from `start` touches.
pub open spec fn first_frame(start: u64) -> int {
    start as int / 4096
}

/// The frame behind the last one that a byte range up to `end` touches.
pub open spec fn end_frame(end: u64) -> int {
    (end + 4095) / 4096
}

/// Where in the search order from group `hint` frame `f` stands.
pub open spec fn rank(hint: int, f: int) -> int {
    (f / 64 + WORDS - hint) % (WORDS as int) * 64 + f % 64
}

impl Frames {
    pub open spec fn wf(self) -> bool {
        self.used.len() == NUM_FRAMES && 0 <= self.hint < WORDS
    }

    /// Whether frame `f` exists and is free.
    pub open spec fn free(self, f: int) -> bool {
        0 <= f < NUM_FRAMES && !self.used[f]
    }

    /// Number of free frames.
    pub open spec fn free_count(self) -> int {
        NUM_FRAMES - count_used(self.used)
    }

    /// Every frame that the byte range touches is used, or not, as `value` says.
    pub open spec fn marked(self, start: u64, end: u64, value: bool) -> Frames {
        Frames {
            used: Seq::new(
                self.used.len(),
                |f: int|
                    if first_frame(start) <= f < end_frame(end) {
                        value
                    } else {
                        self.used[f]
                    },
            ),
            ..self
        }
    }

    /// Whether `f` is the free frame that comes first in the search order.
    pub open spec fn is_next(self, f: int) -> bool {
        self.free(f) && forall|g: int| #[trigger] self.free(g) ==> rank(self.hint, f) <= rank(self.hint, g)
    }

    /// The free frame that comes first in the search order, if any frame is free.
    pub open spec fn next(self) -> Option<int> {
        if exists|f: int| self.is_next(f) {
            Some(choose|f: int| self.is_next(f))
        } else {
            None
        }
    }

    /// The state once frame `f` was handed out.
    pub open spec fn taken(self, f: int) -> Frames {
        Frames { used: self.used.update(f, true), hint: f / 64 }
    }

    /// What an allocation returns (a physical address) and leaves.
    pub open spec fn allocated(self) -> (Option<u64>, Frames) {
        match self.next() {
            Some(f) => (Some((f * 4096) as u64), self.taken(f)),
            None => (None, self),
        }
    }

    /// The state once the frame at physical address `addr`, if it is covered, was released.
    pub open spec fn released(self, addr: u64) -> Frames {
        let f = addr as int / 4096;
        if f < NUM_FRAMES {
            Frames { used: self.used.update(f, false), ..self }
        } else {
            self
        }
    }
}

proof fn lemma_bit_set(w: u64, b: u32, c: int)
    requires
        b < 64,
        0 <= c < 64,
    ensures
        bit(w | (1u64 << b), c) == (c == b || bit(w, c)),
{
    let d = c as u64;
    let e = b as u64;
    assert(1u64 << b == 1u64 << e) by (bit_vector)
        requires
            e == b as u64,
            b < 64,
    ;
    assert(((w | (1u64 << e)) >> d) & 1 == 1 <==> d == e || (w >> d) & 1 == 1) by (bit_vector)
        requires
            d < 64,
            e < 64,
    ;
}

proof fn lemma_bit_clear(w: u64, b: u32, c: int)
    requires
        b < 64,
        0 <= c < 64,
    ensures
        bit(w & !(1u64 << b), c) == (c != b && bit(w, c)),
{
    let d = c as u64;
    let e = b as u64;
    assert(1u64 << b == 1u64 << e) by (bit_vector)
        requires
            e == b as u64,
            b < 64,
    ;
    assert(((w & !(1u64 << e)) >> d) & 1 == 1 <==> d != e && (w >> d) & 1 == 1) by (bit_vector)
        requires
            d < 64,
            e < 64,
    ;
}

proof fn lemma_bit_full(c: int)
    requires
        0 <= c < 64,
    ensures
        bit(u64::MAX, c),
{
    let d = c as u64;
    assert((0xffff_ffff_ffff_ffffu64 >> d) & 1 == 1) by (bit_vector)
        requires
            d < 64,
    ;
}

proof fn lemma_rank_injective(hint: int, f: int, g: int)
    requires
        0 <= hint < WORDS,
        0 <= f < NUM_FRAMES,
        0 <= g < NUM_FRAMES,
        rank(hint, f) == rank(hint, g),
    ensures
        f == g,
{
}

proof fn lemma_next_is(v: Frames, f: int)
    requires
        v.wf(),
        v.is_next(f),
    ensures
        v.next() == Some(f),
{
    let g = choose|g: int| v.is_next(g);
    lemma_rank_injective(v.hint, f, g);
}

impl BitmapFrameAllocator {
    pub open spec fn wf(self) -> bool {
        self.next_word < WORDS
    }

    /// All frames start out marked used; the usable regions are freed later.
    pub fn new() -> (r: BitmapFrameAllocator)
        ensures
            r.wf(),
            r@ == (Frames { used: Seq::new(NUM_FRAMES as nat, |f: int| true), hint: 0 }),
    {
        let r = BitmapFrameAllocator { used: [u64::MAX; WORDS], next_word: 0 };
        proof {
            assert forall|f: int| 0 <= f < NUM_FRAMES implies r@.used[f] by {
                lemma_bit_full(f % 64);
            }
            assert(r@.used =~= Seq::new(NUM_FRAMES as nat, |f: int| true));
        }
        r
    }

    pub fn bit_index(frame: usize) -> (r: (usize, u32))
        ensures
            r.0 == frame / 64,
            r.1 == frame % 64,
    {
        (frame / 64, (frame % 64) as u32)
    }

    pub fn frame_used(&self, frame: usize) -> (r: bool)
        requires
            frame < NUM_FRAMES,
        ensures
            r == self@.used[frame as int],
    {
        let (w, b) = Self::bit_index(frame);
        proof {
            let x = self.used[w as int];
            assert(x >> b == x >> (b as u64)) by (bit_vector)
                requires
                    b < 64,
            ;
        }
        (self.used[w] >> b) & 1 == 1
    }

    pub fn set_used(&mut self, frame: usize, value: bool)
        requires
            frame < NUM_FRAMES,
        ensures
            final(self)@ == (Frames {
                used: old(self)@.used.update(frame as int, value),
                ..old(self)@
            }),
    {
        let (w, b) = Self::bit_index(frame);
        let word: u64 = self.used[w];
        if value {
            self.used[w] = word | (1u64 << b);
        } else {
            self.used[w] = word & !(1u64 << b);
        }
        proof {
            assert forall|f: int| 0 <= f < NUM_FRAMES implies self@.used[f] == old(
                self,
            )@.used.update(frame as int, value)[f] by {
                if f / 64 == w {
                    lemma_bit_set(word, b, f % 64);
                    lemma_bit_clear(word, b, f % 64);
                }
            }
            assert(self@.used =~= old(self)@.used.update(frame as int, value));
        }
    }

    /// Convert a physical byte range to a clamped frame index range. The end is
    /// rounded up, so that partial trailing pages are still covered.
    pub fn frames_for(&self, range: Range<u64>) -> (r: Option<Range<usize>>)
        ensures
            ({
                let end = if end_frame(range.end) < NUM_FRAMES {
                    end_frame(range.end)
                } else {
                    NUM_FRAMES as int
                };
                if first_frame(range.start) < end {
                    r is Some && r->0.start == first_frame(range.start) && r->0.end == end
                } else {
                    r is None
                }
            }),
    {
        let start: u64 = range.start / PAGE_SIZE;
        let whole: u64 = range.end / PAGE_SIZE;
        let end: u64 = if range.end % PAGE_SIZE == 0 {
            whole
        } else {
            whole + 1
        };
        let end: u64 = if end < NUM_FRAMES as u64 {
            end
        } else {
            NUM_FRAMES as u64
        };
        if start < end {
            Some((start as usize)..(end as usize))
        } else {
            None
        }
    }

    fn mark_range(&mut self, range: Range<u64>, value: bool)
        requires
            old(self).wf(),
        ensures
            final(self).wf(),
            final(self)@ == old(self)@.marked(range.start, range.end, value),
    {
        let ghost before = self@;
        match self.frames_for(range) {
            Some(frames) => {
                let mut f: usize = frames.start;
                while f < frames.end
                    invariant
                        frames.start <= f <= frames.end <= NUM_FRAMES,
                        self@.hint == before.hint,
                        self@.used.len() == NUM_FRAMES,
                        before.used.len() == NUM_FRAMES,
                        forall|i: int|
                            0 <= i < NUM_FRAMES ==> self@.used[i] == if frames.start <= i < f {
                                value
                            } else {
                                before.used[i]
                            },
                    decreases frames.end - f,
                {
                    self.set_used(f, value);
                    f = f + 1;
                }
            },
            None => {},
        }
        assert(self@.used =~= before.marked(range.start, range.end, value).used);
    }

    pub fn mark_used_range(&mut self, range: Range<u64>)
        requires
            old(self).wf(),
        ensures
            final(self).wf(),
            final(self)@ == old(self)@.marked(range.start, range.end, true),
    {
        self.mark_range(range, true);
    }

    pub fn mark_free_range(&mut self, range: Range<u64>)
        requires
            old(self).wf(),
        ensures
            final(self).wf(),
            final(self)@ == old(self)@.marked(range.start, range.end, false),
    {
        self.mark_range(range, false);
    }

    /// Find the first free frame, mark it used, and return its address.
    pub fn allocate_frame(&mut self) -> (r: Option<u64>)
        requires
            old(self).wf(),
        ensures
            final(self).wf(),
            (r, final(self)@) == old(self)@.allocated(),
    {
        let ghost v = self@;
        let mut wi: usize = 0;
        while wi < WORDS
            invariant
                wi <= WORDS,
                self.wf(),
                v == self@,
                v == old(self)@,
                v.wf(),
                forall|g: int| #[trigger] v.free(g) ==> rank(v.hint, g) >= wi * 64,
            decreases WORDS - wi,
        {
            let idx: usize = (self.next_word + wi) % WORDS;
            if self.used[idx] == u64::MAX {
                proof {
                    assert forall|g: int| #[trigger] v.free(g) implies rank(v.hint, g) >= (wi + 1)
                        * 64 by {
                        lemma_bit_full(g % 64);
                    }
                }
            } else {
                let mut b: usize = 0;
                while b < 64
                    invariant
                        b <= 64,
                        wi < WORDS,
                        idx == (v.hint + wi) % (WORDS as int),
                        self.wf(),
                        v == self@,
                        v == old(self)@,
                        v.wf(),
                        forall|g: int| #[trigger] v.free(g) ==> rank(v.hint, g) >= wi * 64 + b,
                    decreases 64 - b,
                {
                    let frame: usize = idx * 64 + b;
                    assert(rank(v.hint, frame as int) == wi * 64 + b);
                    if !self.frame_used(frame) {
                        self.set_used(frame, true);
                        self.next_word = idx;
                        proof {
                            assert(v.free(frame as int));
                            assert(v.is_next(frame as int));
                            lemma_next_is(v, frame as int);
                            assert(self@ =~= v.taken(frame as int));
                        }
                        return Some(frame as u64 * PAGE_SIZE);
                    }
                    proof {
                        assert forall|g: int| #[trigger] v.free(g) implies rank(v.hint, g) >= wi * 64
                            + b + 1 by {
                            if rank(v.hint, g) == wi * 64 + b {
                                lemma_rank_injective(v.hint, g, frame as int);
                            }
                        }
                    }
                    b = b + 1;
                }
            }
            wi = wi + 1;
        }
        None
    }

    /// Allocate `n` frames, one after the other; their addresses.
    pub fn allocate_frames(&mut self, n: usize) -> (r: Vec<u64>)
        requires
            old(self).wf(),
            old(self)@.free_count() >= n,
        ensures
            final(self).wf(),
            r@ == pages(old(self)@, n as nat).0,
            final(self)@ == pages(old(self)@, n as nat).1,
    {
        let mut r: Vec<u64> = Vec::new();
        let mut i: usize = 0;
        while i < n
            invariant
                i <= n,
                self.wf(),
                self@.free_count() >= n - i,
                r@ == pages(old(self)@, i as nat).0,
                self@ == pages(old(self)@, i as nat).1,
            decreases n - i,
        {
            proof {
                law_allocation(self@);
            }
            if let Some(phys) = self.allocate_frame() {
                r.push(phys);
            }
            i = i + 1;
        }
        r
    }

    /// Release the frame at physical address `frame`.
    pub fn deallocate_frame(&mut self, frame: u64)
        requires
            old(self).wf(),
        ensures
            final(self).wf(),
            final(self)@ == old(self)@.released(frame),
    {
        let idx: u64 = frame / PAGE_SIZE;
        if idx < NUM_FRAMES as u64 {
            self.set_used(idx as usize, false);
        }
    }

    /// Number of frames currently available.
    pub fn free_count(&self) -> (r: usize)
        ensures
            r == self@.free_count(),
    {
        let mut used: usize = 0;
        let mut i: usize = 0;
        assert(self@.used.take(0) =~= seq![]);
        while i < WORDS
            invariant
                i <= WORDS,
                used <= i * 64,
                used == count_used(self@.used.take(i * 64)),
            decreases WORDS - i,
        {
            proof {
                self.lemma_count_word(i as int, 64);
            }
            used = used + self.used[i].count_ones() as usize;
            i = i + 1;
        }
        assert(self@.used.take(NUM_FRAMES as int) =~= self@.used);
        NUM_FRAMES - used
    }

    proof fn lemma_count_word(&self, i: int, n: nat)
        requires
            0 <= i < WORDS,
            n <= 64,
        ensures
            count_used(self@.used.take(i * 64 + n)) == count_used(self@.used.take(i * 64)) + ones(
                self.used[i],
                n,
            ),
            ones(self.used[i], n) <= n,
        decreases n,
    {
        if n > 0 {
            self.lemma_count_word(i, (n - 1) as nat);
            let t = self@.used.take(i * 64 + n);
            assert(t.drop_last() =~= self@.used.take(i * 64 + (n - 1)));
            assert(t.last() == bit(self.used[i], n - 1));
        }
    }
}

proof fn lemma_count_update(s: Seq<bool>, f: int, value: bool)
    requires
        0 <= f < s.len(),
    ensures
        count_used(s) <= s.len(),
        count_used(s.update(f, value)) == count_used(s) + if value {
            1int
        } else {
            0int
        } - if s[f] {
            1int
        } else {
            0int
        },
    decreases s.len(),
{
    lemma_count_bound(s);
    let t = s.update(f, value);
    if f == s.len() - 1 {
        assert(t.drop_last() =~= s.drop_last());
    } else {
        assert(t.drop_last() =~= s.drop_last().update(f, value));
        lemma_count_update(s.drop_last(), f, value);
    }
}

pub(crate) proof fn lemma_count_bound(s: Seq<bool>)
    ensures
        count_used(s) <= s.len(),
        count_used(s) == s.len() <==> forall|i: int| 0 <= i < s.len() ==> s[i],
    decreases s.len(),
{
    if s.len() > 0 {
        let t = s.drop_last();
        lemma_count_bound(t);
        if forall|i: int| 0 <= i < s.len() ==> s[i] {
            assert forall|i: int| 0 <= i < t.len() implies t[i] by {
                assert(s[i]);
            }
            assert(s[s.len() - 1]);
        }
        if count_used(s) == s.len() {
            assert forall|i: int| 0 <= i < s.len() implies s[i] by {
                if i < t.len() {
                    assert(t[i]);
                }
            }
        }
    }
}

proof fn lemma_next_exists(v: Frames, g: int)
    requires
        v.wf(),
        v.free(g),
    ensures
        exists|f: int| v.is_next(f),
    decreases rank(v.hint, g),
{
    if !v.is_next(g) {
        let h = choose|h: int| #[trigger] v.free(h) && rank(v.hint, h) < rank(v.hint, g);
        lemma_next_exists(v, h);
    }
}

/// An allocation fails exactly when no frame is free. Otherwise it hands out a
/// covered, page-aligned frame that was free, marks that frame and no other, and
/// leaves one free frame fewer.
pub proof fn law_allocation(v: Frames)
    requires
        v.wf(),
    ensures
        v.allocated().0 is None <==> v.free_count() == 0,
        v.allocated().0 is None ==> v.allocated().1 == v,
        v.allocated().0 is Some ==> {
            let f = v.allocated().0->0 as int / 4096;
            &&& v.allocated().0->0 == f * 4096
            &&& v.allocated().0->0 < MAX_PHYS
            &&& v.free(f)
            &&& v.allocated().1.used == v.used.update(f, true)
            &&& v.allocated().1.free_count() == v.free_count() - 1
        },
        v.allocated().1.wf(),
{
    lemma_count_bound(v.used);
    if v.next() is Some {
        let f = v.next()->0;
        assert(v.is_next(f));
        lemma_count_update(v.used, f, true);
        assert(!v.used[f]);
    } else {
        assert forall|g: int| 0 <= g < NUM_FRAMES implies v.used[g] by {
            if v.free(g) {
                lemma_next_exists(v, g);
            }
        }
    }
}

/// A frame that was handed out is not handed out again by the next allocation.
pub proof fn law_no_double_allocation(v: Frames)
    requires
        v.wf(),
        v.allocated().0 is Some,
        v.allocated().1.allocated().0 is Some,
    ensures
        v.allocated().0 != v.allocated().1.allocated().0,
{
    law_allocation(v);
    law_allocation(v.allocated().1);
}

/// As long as a frame is used, no allocation hands it out.
pub proof fn law_used_frame_is_kept(v: Frames, f: int)
    requires
        v.wf(),
        0 <= f < NUM_FRAMES,
        v.used[f],
    ensures
        v.allocated().0 != Some((f * 4096) as u64),
        v.allocated().1.used[f],
{
    law_allocation(v);
}

/// Releasing a frame that was just handed out gives back the bitmap and the
/// number of free frames from before.
pub proof fn law_release_undoes_allocation(v: Frames)
    requires
        v.wf(),
        v.allocated().0 is Some,
    ensures
        v.allocated().1.released(v.allocated().0->0).used == v.used,
        v.allocated().1.released(v.allocated().0->0).free_count() == v.free_count(),
{
    law_allocation(v);
    assert(v.allocated().1.released(v.allocated().0->0).used =~= v.used);
}

/// The physical addresses that `n` allocations in a row give, and what they leave.
pub open spec fn pages(v: Frames, n: nat) -> (Seq<u64>, Frames)
    decreases n,
{
    if n == 0 {
        (seq![], v)
    } else {
        let (s, w) = pages(v, (n - 1) as nat);
        match w.allocated().0 {
            Some(a) => (s.push(a), w.allocated().1),
            None => (s, w),
        }
    }
}

/// As long as enough frames are free, allocations in a row give as many different
/// frames, all of which were free.
pub proof fn law_pages_are_distinct(v: Frames, n: nat)
    requires
        v.wf(),
        v.free_count() >= n,
    ensures
        pages(v, n).0.len() == n,
        pages(v, n).1.wf(),
        pages(v, n).1.free_count() == v.free_count() - n,
        forall|i: int|
            0 <= i < n ==> {
                let a = #[trigger] pages(v, n).0[i];
                a % 4096 == 0 && a < MAX_PHYS && v.free(a as int / 4096) && pages(v, n).1.used[a as int
                    / 4096]
            },
        forall|i: int, j: int| 0 <= i < j < n ==> pages(v, n).0[i] != pages(v, n).0[j],
        forall|f: int| 0 <= f < v.used.len() && v.used[f] ==> #[trigger] pages(v, n).1.used[f],
    decreases n,
{
    if n > 0 {
        let (s, w) = pages(v, (n - 1) as nat);
        law_pages_are_distinct(v, (n - 1) as nat);
        law_allocation(w);
        let a = w.allocated().0->0;
        assert(v.free(a as int / 4096)) by {
            if v.used[a as int / 4096] {
                assert(w.used[a as int / 4096]);
            }
        }
    }
}

/// Frames that the self test allocates.
pub const SELF_TEST_FRAMES: usize = 1000;

/// Whether frame `f` is among the first `n` of `frames`.
pub open spec fn among(frames: Seq<u64>, n: int, f: int) -> bool {
    exists|j: int| 0 <= j < n && (#[trigger] frames[j]) as int / 4096 == f
}

/// Smoke test: reserve 1000 frames, then release them all. Returns the number of
/// free frames before, in between and after.
pub fn self_test(alloc: &mut BitmapFrameAllocator) -> (r: (usize, usize, usize))
    requires
        old(alloc).wf(),
        old(alloc)@.free_count() >= SELF_TEST_FRAMES,
    ensures
        final(alloc).wf(),
        final(alloc)@.used == old(alloc)@.used,
        final(alloc)@.hint == pages(old(alloc)@, SELF_TEST_FRAMES as nat).1.hint,
        r.0 == old(alloc)@.free_count(),
        r.1 == r.0 - SELF_TEST_FRAMES,
        r.2 == r.0,
{
    let before: usize = alloc.free_count();
    let ghost v = alloc@;
    proof {
        law_pages_are_distinct(v, SELF_TEST_FRAMES as nat);
    }
    let frames = alloc.allocate_frames(SELF_TEST_FRAMES);
    let during: usize = alloc.free_count();
    let ghost w = alloc@;
    let mut i: usize = 0;
    while i < frames.len()
        invariant
            i <= frames@.len(),
            alloc.wf(),
            v.used.len() == NUM_FRAMES,
            w.used.len() == NUM_FRAMES,
            alloc@.used.len() == NUM_FRAMES,
            alloc@.hint == w.hint,
            forall|j: int|
                0 <= j < frames@.len() ==> (#[trigger] frames@[j]) % 4096 == 0 && frames@[j] < MAX_PHYS
                    && !v.used[frames@[j] as int / 4096],
            forall|f: int|
                0 <= f < NUM_FRAMES ==> (#[trigger] alloc@.used[f]) == (w.used[f] && !among(
                    frames@,
                    i as int,
                    f,
                )),
        decreases frames@.len() - i,
    {
        let ghost prev = alloc@.used;
        alloc.deallocate_frame(frames[i]);
        proof {
            let g = frames@[i as int] as int / 4096;
            assert(alloc@.used == prev.update(g, false));
            assert forall|f: int| 0 <= f < NUM_FRAMES implies (#[trigger] alloc@.used[f]) == (w.used[f]
                && !among(frames@, i + 1, f)) by {
                assert(alloc@.used[f] == if f == g {
                    false
                } else {
                    prev[f]
                });
                if f == g {
                    assert(frames@[i as int] as int / 4096 == f);
                } else if among(frames@, i + 1, f) {
                    let j = choose|j: int|
                        0 <= j < i + 1 && (#[trigger] frames@[j]) as int / 4096 == f;
                    assert(j != i);
                }
            }
        }
        i = i + 1;
    }
    proof {
        assert forall|f: int| 0 <= f < NUM_FRAMES implies alloc@.used[f] == v.used[f] by {
            if !among(frames@, frames@.len() as int, f) {
                law_pages_take_nothing_else(v, SELF_TEST_FRAMES as nat, f);
            }
        }
        assert(alloc@.used =~= v.used);
    }
    let after: usize = alloc.free_count();
    (before, during, after)
}

/// Allocations in a row change the state of no frame but those that they hand out.
pub proof fn law_pages_take_nothing_else(v: Frames, n: nat, f: int)
    requires
        v.wf(),
        v.free_count() >= n,
        0 <= f < NUM_FRAMES,
        forall|j: int| 0 <= j < n ==> (#[trigger] pages(v, n).0[j]) as int / 4096 != f,
    ensures
        pages(v, n).1.used[f] == v.used[f],
    decreases n,
{
    if n > 0 {
        let m = (n - 1) as nat;
        law_pages_are_distinct(v, m);
        let w = pages(v, m).1;
        law_allocation(w);
        assert(pages(v, n).0 == pages(v, m).0.push(w.allocated().0->0));
        assert(pages(v, n).0[n - 1] == w.allocated().0->0);
        assert forall|j: int| 0 <= j < m implies (#[trigger] pages(v, m).0[j]) as int / 4096 != f by {
            assert(pages(v, n).0[j] == pages(v, m).0[j]);
        }
        law_pages_take_nothing_else(v, m, f);
    }
}

/// Marking a range of bytes marks the frame of every byte in it, and no frame that
/// holds none: neither one that ends before the range nor one that starts behind it.
pub proof fn law_range_marks_its_frames(v: Frames, start: u64, end: u64, value: bool, f: int, a: int)
    requires
        v.wf(),
        0 <= f < NUM_FRAMES,
    ensures
        start <= a < end && f * 4096 <= a < (f + 1) * 4096 ==> v.marked(start, end, value).used[f]
            == value,
        end <= f * 4096 ==> v.marked(start, end, value).used[f] == v.used[f],
        (f + 1) * 4096 <= start ==> v.marked(start, end, value).used[f] == v.used[f],
        v.marked(start, end, value).used.len() == v.used.len(),
        v.marked(start, end, value).hint == v.hint,
{
}

/// Used frames are counted one by one.
pub proof fn law_used_frames_are_counted(s: Seq<bool>, t: Seq<bool>)
    ensures
        count_used(s + t) == count_used(s) + count_used(t),
        count_used(seq![true]) == 1,
        count_used(seq![false]) == 0,
    decreases t.len(),
{
    reveal_with_fuel(count_used, 2);
    assert(seq![true].drop_last() =~= seq![]);
    assert(seq![false].drop_last() =~= seq![]);
    if t.len() == 0 {
        assert(s + t =~= s);
    } else {
        assert((s + t).drop_last() =~= s + t.drop_last());
        law_used_frames_are_counted(s, t.drop_last());
    }
}

/// Which free frame is handed out: the lowest from the group of 64 on that the last
/// one came from; if none is free there, the lowest of all.
pub proof fn law_lowest_frame_from_hint(v: Frames, g: int)
    requires
        v.wf(),
        v.free(g),
    ensures
        ({
            let (r, w) = v.allocated();
            let f = r->0 as int / 4096;
            &&& r is Some
            &&& g >= v.hint * 64 ==> v.hint * 64 <= f <= g
            &&& g < v.hint * 64 && f < v.hint * 64 ==> f <= g
            &&& w.hint * 64 <= f < w.hint * 64 + 64
        }),
{
    lemma_next_exists(v, g);
    let f = v.next()->0;
    assert(v.is_next(f));
    assert(rank(v.hint, f) <= rank(v.hint, g));
    lemma_rank(v.hint, f);
    lemma_rank(v.hint, g);
}

proof fn lemma_rank(hint: int, f: int)
    requires
        0 <= hint < WORDS,
        0 <= f < NUM_FRAMES,
    ensures
        f >= hint * 64 ==> rank(hint, f) == f - hint * 64,
        f < hint * 64 ==> rank(hint, f) == f - hint * 64 + NUM_FRAMES,
{
    let d = f / 64 + WORDS - hint;
    if f / 64 >= hint {
        assert(d % (WORDS as int) == d - WORDS);
    } else {
        assert(d % (WORDS as int) == d);
    }
}

/// Releasing frees the frame of the address, and nothing else; an address beyond the
/// frames changes nothing.
pub proof fn law_release_frees_one(v: Frames, addr: u64, f: int)
    requires
        v.wf(),
        0 <= f < NUM_FRAMES,
    ensures
        f * 4096 <= addr < (f + 1) * 4096 ==> !v.released(addr).used[f],
        !(f * 4096 <= addr < (f + 1) * 4096) ==> v.released(addr).used[f] == v.used[f],
        v.released(addr).used.len() == v.used.len(),
        v.released(addr).hint == v.hint,
{
}

} // verus!
