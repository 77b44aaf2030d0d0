use vstd::prelude::*;

verus! {

/// Where a run of `n` consecutive samples, starting at some logical position, lies in a
/// ring of slots: the slot of the first sample, how many samples fit before the end of the
/// ring, and how many wrap around to its front.
#[derive(Debug, Clone, Copy)]
pub struct CopyPlan {
    pub physical_start: usize,
    pub first_part: usize,
    pub second_part: usize,
}

/// The slot that holds sample `i` of a run whose first sample is in slot `p`, in a ring of
/// `len` slots.
pub open spec fn ring_slot(p: int, len: int, i: int) -> int {
    if p + i < len {
        p + i
    } else {
        p + i - len
    }
}

/// Splits a run of `n` samples that starts at logical position `start` into the part that
/// fits before the end of the ring and the part that wraps to its front. The slot of the
/// first sample is `start & mask`.
pub fn plan_copy(start: usize, mask: usize, buffer_len: usize, n: usize) -> (plan: CopyPlan)
    requires
        mask < buffer_len,
    ensures
        plan.physical_start == start & mask,
        plan.physical_start < buffer_len,
        plan.physical_start + n <= buffer_len ==> plan.first_part == n && plan.second_part == 0,
        plan.physical_start + n > buffer_len ==> plan.first_part == buffer_len
            - plan.physical_start && plan.second_part == n - plan.first_part,
{
    let physical_start = start & mask;
    assert(physical_start <= mask) by (bit_vector)
        requires
            physical_start == start & mask,
    ;
    if n <= buffer_len - physical_start {
        CopyPlan { physical_start, first_part: n, second_part: 0 }
    } else {
        let first_part = buffer_len - physical_start;
        CopyPlan { physical_start, first_part, second_part: n - first_part }
    }
}

/// The offset, within a run that starts in slot `p`, of the first sample that lands in slot `x`
/// (the next one that lands there, if any, is `len` further on).
pub open spec fn ring_offset(p: int, len: int, x: int) -> int {
    if x >= p {
        x - p
    } else {
        x + len - p
    }
}

/// The slots after `samples` have been written as a run starting in slot `p`: each slot
/// holds the last sample of the run that lands in it, or its old value if none does.
pub open spec fn written<T>(slots: Seq<T>, p: int, samples: Seq<T>) -> Seq<T> {
    Seq::new(
        slots.len(),
        |x: int|
            {
                let first = ring_offset(p, slots.len() as int, x);
                if first + slots.len() < samples.len() {
                    samples[first + slots.len()]
                } else if first < samples.len() {
                    samples[first]
                } else {
                    slots[x]
                }
            },
    )
}

/// The `n` samples read as a run starting in slot `p`.
pub open spec fn read_run<T>(slots: Seq<T>, p: int, n: int) -> Seq<T> {
    Seq::new(n as nat, |i: int| slots[ring_slot(p, slots.len() as int, i)])
}

/// A ring of sample slots with a running write position. A sample written at logical
/// position `h` lands in slot `(h & mask)` plus its offset in the run, wrapping at the end.
pub struct RingState<T> {
    buffer: Vec<T>,
    head: usize,
    mask: usize,
}

impl<T: Copy> RingState<T> {
    /// The contents of the slots.
    pub closed spec fn slots(&self) -> Seq<T> {
        self.buffer@
    }

    /// The number of samples written so far.
    pub closed spec fn spec_head(&self) -> usize {
        self.head
    }

    /// The mask that maps a logical position to its first slot.
    pub closed spec fn spec_mask(&self) -> usize {
        self.mask
    }

    /// There is one slot more than the mask.
    pub open spec fn wf(&self) -> bool {
        self.slots().len() == self.spec_mask() + 1
    }

    /// A ring never has more slots than a `usize` counts.
    proof fn lemma_slot_count_fits(&self)
        ensures
            self.slots().len() <= usize::MAX,
    {
        broadcast use vstd::std_specs::vec::axiom_spec_len;

        assert(self.buffer.len() == self.buffer@.len());
    }

    /// `history` is every sample written so far, in order: the write position counts them,
    /// and the last of them sit in the slots given by their positions modulo the slot count.
    pub open spec fn holds(&self, history: Seq<T>) -> bool {
        &&& self.spec_head() == history.len()
        &&& holds_history(self.slots(), history)
    }

    /// A ring of `size` slots, each holding `fill`, with nothing written yet.
    pub fn new(size: usize, fill: T) -> (ring: Self)
        requires
            size > 0,
        ensures
            ring.wf(),
            ring.slots() == Seq::new(size as nat, |i: int| fill),
            ring.spec_head() == 0,
            ring.spec_mask() == size - 1,
            ring.holds(Seq::empty()),
    {
        let mut buffer: Vec<T> = Vec::with_capacity(size);
        let mut i: usize = 0;
        while i < size
            invariant
                i <= size,
                buffer@ == Seq::new(i as nat, |j: int| fill),
            decreases size - i,
        {
            buffer.push(fill);
            i = i + 1;
        }
        RingState { buffer, head: 0, mask: size - 1 }
    }

    /// Appends `samples` at the write position and moves the write position past them. A run
    /// may wrap around the ring once past its first slot; a slot written twice keeps the later
    /// sample.
    pub fn write_samples(&mut self, samples: &[T])
        requires
            old(self).wf(),
            (old(self).spec_head() & old(self).spec_mask()) + samples@.len() <= 2 * old(
                self,
            ).slots().len(),
            old(self).spec_head() + samples@.len() <= usize::MAX,
        ensures
            final(self).wf(),
            final(self).spec_mask() == old(self).spec_mask(),
            final(self).spec_head() == old(self).spec_head() + samples@.len(),
            final(self).slots() == written(
                old(self).slots(),
                (old(self).spec_head() & old(self).spec_mask()) as int,
                samples@,
            ),
    {
        let n = samples.len();
        let buffer_len = self.buffer.len();
        let plan = plan_copy(self.head, self.mask, buffer_len, n);
        let ghost old_slots = self.buffer@;
        let ghost p = plan.physical_start as int;
        let mut i: usize = 0;
        while i < plan.first_part
            invariant
                n == samples@.len(),
                buffer_len == old_slots.len(),
                p == plan.physical_start,
                p + plan.first_part <= buffer_len,
                plan.first_part <= n,
                i <= plan.first_part,
                self.head == old(self).head,
                self.mask == old(self).mask,
                self.buffer@.len() == buffer_len,
                forall|x: int|
                    0 <= x < buffer_len ==> #[trigger] self.buffer@[x] == if p <= x < p + i {
                        samples@[x - p]
                    } else {
                        old_slots[x]
                    },
            decreases plan.first_part - i,
        {
            self.buffer.set(plan.physical_start + i, samples[i]);
            i = i + 1;
        }
        let mut j: usize = 0;
        while j < plan.second_part
            invariant
                n == samples@.len(),
                buffer_len == old_slots.len(),
                p == plan.physical_start,
                p + plan.first_part <= buffer_len,
                plan.first_part + plan.second_part == n,
                plan.second_part > 0 ==> p + plan.first_part == buffer_len,
                plan.second_part <= buffer_len,
                j <= plan.second_part,
                self.head == old(self).head,
                self.mask == old(self).mask,
                self.buffer@.len() == buffer_len,
                forall|x: int|
                    0 <= x < buffer_len ==> #[trigger] self.buffer@[x] == if x < j {
                        samples@[x + plan.first_part]
                    } else if p <= x < p + plan.first_part {
                        samples@[x - p]
                    } else {
                        old_slots[x]
                    },
            decreases plan.second_part - j,
        {
            self.buffer.set(j, samples[plan.first_part + j]);
            j = j + 1;
        }
        self.head = self.head + n;
        assert(self.buffer@ =~= written(old_slots, p, samples@));
    }

    /// Fills `dest` with the run of samples that starts at logical position `start`, reading
    /// around the ring (at most once past the first slot) when `dest` is long.
    pub fn copy_to_slice(&self, start: usize, dest: &mut [T])
        requires
            self.wf(),
            (start & self.spec_mask()) + old(dest)@.len() <= 2 * self.slots().len(),
        ensures
            final(dest)@ == read_run(
                self.slots(),
                (start & self.spec_mask()) as int,
                old(dest)@.len() as int,
            ),
    {
        let n = dest.len();
        let buffer_len = self.buffer.len();
        let plan = plan_copy(start, self.mask, buffer_len, n);
        let ghost p = plan.physical_start as int;
        let mut i: usize = 0;
        while i < plan.first_part
            invariant
                n == dest@.len(),
                buffer_len == self.buffer@.len(),
                p == plan.physical_start,
                p + plan.first_part <= buffer_len,
                plan.first_part <= n,
                i <= plan.first_part,
                forall|x: int| 0 <= x < i ==> #[trigger] dest@[x] == self.buffer@[p + x],
            decreases plan.first_part - i,
        {
            dest[i] = self.buffer[plan.physical_start + i];
            i = i + 1;
        }
        let mut j: usize = 0;
        while j < plan.second_part
            invariant
                n == dest@.len(),
                buffer_len == self.buffer@.len(),
                p == plan.physical_start,
                p + plan.first_part <= buffer_len,
                plan.first_part + plan.second_part == n,
                plan.second_part > 0 ==> p + plan.first_part == buffer_len,
                plan.second_part <= buffer_len,
                j <= plan.second_part,
                forall|x: int| 0 <= x < plan.first_part ==> #[trigger] dest@[x] == self.buffer@[p + x],
                forall|x: int|
                    plan.first_part <= x < plan.first_part + j ==> #[trigger] dest@[x]
                        == self.buffer@[x - plan.first_part],
            decreases plan.second_part - j,
        {
            dest[plan.first_part + j] = self.buffer[j];
            j = j + 1;
        }
        assert(dest@ =~= read_run(self.buffer@, p, n as int));
    }

    /// The number of samples written so far.
    pub fn get_head(&self) -> (head: usize)
        ensures
            head == self.spec_head(),
    {
        self.head
    }
}

/// Reading back the run that a write started gives the samples written, except those that
/// a later sample of the same run overwrote: every sample among the last `len` of the run
/// comes back, and a run no longer than the ring comes back whole.
pub proof fn lemma_read_after_write<T>(slots: Seq<T>, p: int, samples: Seq<T>)
    requires
        0 <= p < slots.len(),
        p + samples.len() <= 2 * slots.len(),
    ensures
        forall|i: int|
            0 <= i < samples.len() && samples.len() <= i + slots.len() ==> #[trigger] read_run(
                written(slots, p, samples),
                p,
                samples.len() as int,
            )[i] == samples[i],
        samples.len() <= slots.len() ==> read_run(
            written(slots, p, samples),
            p,
            samples.len() as int,
        ) == samples,
{
    let after = written(slots, p, samples);
    let len = slots.len() as int;
    let n = samples.len() as int;
    assert forall|i: int| 0 <= i < n && n <= i + len implies #[trigger] read_run(after, p, n)[i]
        == samples[i] by {
        let x = ring_slot(p, len, i);
        if i < len {
            assert(ring_offset(p, len, x) == i);
        } else {
            assert(ring_offset(p, len, x) == i - len);
        }
    }
    if n <= len {
        assert(read_run(after, p, n) =~= samples);
    }
}

/// A write leaves every slot outside its run as it was.
pub proof fn lemma_write_keeps_other_slots<T>(slots: Seq<T>, p: int, samples: Seq<T>, x: int)
    requires
        0 <= p < slots.len(),
        p + samples.len() <= 2 * slots.len(),
        0 <= x < slots.len(),
        forall|i: int| 0 <= i < samples.len() ==> ring_slot(p, slots.len() as int, i) != x,
    ensures
        written(slots, p, samples)[x] == slots[x],
{
    let i = ring_offset(p, slots.len() as int, x);
    if i < samples.len() {
        assert(ring_slot(p, slots.len() as int, i) == x);
    }
}

/// Each of the last `slots.len()` samples of `history` (all of them, if fewer were written)
/// sits in the slot given by its logical position modulo the number of slots.
pub open spec fn holds_history<T>(slots: Seq<T>, history: Seq<T>) -> bool {
    forall|i: int|
        0 <= i < history.len() && history.len() <= i + slots.len() ==> slots[i % (
        slots.len() as int)] == #[trigger] history[i]
}

/// `y == q * len + r` with `r` in `[0, len)` gives `y % len == r`, also when `r` is off by one lap.
proof fn lemma_mod_lap(y: int, len: int, q: int, r: int)
    requires
        len > 0,
        y == q * len + r,
        -len <= r < 2 * len,
    ensures
        y % len == if r < 0 {
            r + len
        } else if r < len {
            r
        } else {
            r - len
        },
{
    if r < 0 {
        assert(y == (q - 1) * len + (r + len)) by (nonlinear_arith)
            requires
                y == q * len + r,
        ;
        vstd::arithmetic::div_mod::lemma_fundamental_div_mod_converse(y, len, q - 1, r + len);
    } else if r < len {
        vstd::arithmetic::div_mod::lemma_fundamental_div_mod_converse(y, len, q, r);
    } else {
        assert(y == (q + 1) * len + (r - len)) by (nonlinear_arith)
            requires
                y == q * len + r,
        ;
        vstd::arithmetic::div_mod::lemma_fundamental_div_mod_converse(y, len, q + 1, r - len);
    }
}

/// A write that starts at the slot of the next logical position keeps the history: the
/// ring then holds the history followed by the samples written.
pub proof fn lemma_written_extends_history<T>(slots: Seq<T>, history: Seq<T>, samples: Seq<T>)
    requires
        slots.len() > 0,
        holds_history(slots, history),
        (history.len() as int) % (slots.len() as int) + samples.len() <= 2 * slots.len(),
    ensures
        holds_history(
            written(slots, (history.len() as int) % (slots.len() as int), samples),
            history + samples,
        ),
{
    let len = slots.len() as int;
    let h = history.len() as int;
    let n = samples.len() as int;
    let p = h % len;
    let q = h / len;
    vstd::arithmetic::div_mod::lemma_fundamental_div_mod(h, len);
    vstd::arithmetic::div_mod::lemma_mod_bound(h, len);
    assert(h == q * len + p) by (nonlinear_arith)
        requires
            h == len * (h / len) + (h % len),
            q == h / len,
            p == h % len,
    ;
    let after = written(slots, p, samples);
    let all = history + samples;
    assert forall|i: int| 0 <= i < all.len() && all.len() <= i + len implies after[i % len]
        == #[trigger] all[i] by {
        if i >= h {
            let j = i - h;
            lemma_mod_lap(i, len, q, p + j);
            assert(all[i] == samples[j]);
        } else {
            let d = h - i;
            lemma_mod_lap(i, len, q, p - d);
            assert(all[i] == history[i]);
        }
    }
}

/// With a power-of-two number of slots, a write keeps the ring's history: after writing
/// `samples` the ring holds everything written before followed by `samples`, and the write
/// position is the total number of samples ever written.
pub proof fn lemma_write_keeps_history<T: Copy>(
    before: RingState<T>,
    after: RingState<T>,
    history: Seq<T>,
    samples: Seq<T>,
    k: nat,
)
    requires
        before.wf(),
        before.slots().len() == vstd::arithmetic::power2::pow2(k),
        before.holds(history),
        (before.spec_head() & before.spec_mask()) + samples.len() <= 2 * before.slots().len(),
        after.spec_head() == before.spec_head() + samples.len(),
        after.slots() == written(
            before.slots(),
            (before.spec_head() & before.spec_mask()) as int,
            samples,
        ),
    ensures
        after.holds(history + samples),
{
    before.lemma_slot_count_fits();
    lemma_mask_is_mod(before.spec_head(), before.spec_mask(), k);
    lemma_written_extends_history(before.slots(), history, samples);
}

/// With a power-of-two number of slots, reading a run of the last `slots().len()` samples
/// written gives them back, from any history of writes.
pub proof fn lemma_read_from_history<T: Copy>(
    ring: RingState<T>,
    history: Seq<T>,
    start: usize,
    n: int,
    k: nat,
)
    requires
        ring.wf(),
        ring.slots().len() == vstd::arithmetic::power2::pow2(k),
        ring.holds(history),
        0 <= n,
        start + n <= history.len(),
        history.len() <= start + ring.slots().len(),
    ensures
        (start & ring.spec_mask()) + n <= 2 * ring.slots().len(),
        read_run(ring.slots(), (start & ring.spec_mask()) as int, n) == history.subrange(
            start as int,
            start + n,
        ),
{
    let len = ring.slots().len() as int;
    ring.lemma_slot_count_fits();
    lemma_mask_is_mod(start, ring.spec_mask(), k);
    let p = (start as int) % len;
    let q = (start as int) / len;
    vstd::arithmetic::div_mod::lemma_fundamental_div_mod(start as int, len);
    vstd::arithmetic::div_mod::lemma_mod_bound(start as int, len);
    assert(start == q * len + p) by (nonlinear_arith)
        requires
            start == len * ((start as int) / len) + ((start as int) % len),
            q == (start as int) / len,
            p == (start as int) % len,
    ;
    let got = read_run(ring.slots(), p, n);
    let want = history.subrange(start as int, start + n);
    assert forall|i: int| 0 <= i < n implies got[i] == want[i] by {
        lemma_mod_lap(start + i, len, q, p + i);
        assert(want[i] == history[start + i]);
    }
    assert(got =~= want);
}

/// With a power-of-two number of slots, masking a logical position gives its remainder.
pub proof fn lemma_mask_is_mod(h: usize, mask: usize, k: nat)
    requires
        mask < usize::MAX,
        mask + 1 == vstd::arithmetic::power2::pow2(k),
    ensures
        (h & mask) as int == (h as int) % (mask as int + 1),
{
    vstd::arithmetic::power2::lemma2_to64();
    vstd::arithmetic::power2::lemma2_to64_rest();
    assert(usize::BITS == 32 || usize::BITS == 64);
    assert(usize::BITS == 32 ==> usize::MAX == 0xffff_ffff);
    assert(usize::BITS == 64 ==> usize::MAX == 0xffff_ffff_ffff_ffff);
    if k > usize::BITS {
        vstd::arithmetic::power2::lemma_pow2_strictly_increases(usize::BITS as nat, k);
    }
    vstd::bits::lemma_usize_low_bits_mask_is_mod(h, k);
}

} // verus!
