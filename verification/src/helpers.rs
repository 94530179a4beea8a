use core::ops::{Add, Sub};
use vstd::prelude::*;
use vstd::std_specs::cmp::{PartialOrdIs, PartialOrdSpec};
use vstd::std_specs::ops::{AddSpec, SubSpec};
use crate::traits::ExactInt;

verus! {

/// The larger of `a` and `b` (`b` when they are equal or unordered).
pub(crate) fn partial_max2<T: PartialOrd>(a: T, b: T) -> (r: T)
    ensures
        r == a || r == b,
        T::obeys_partial_cmp_spec() ==> r == (if a.is_gt(&b) { a } else { b }),
{
    if a > b {
        a
    } else {
        b
    }
}

/// The smaller of `a` and `b` (`a` when they are equal or unordered).
pub(crate) fn partial_min2<T: PartialOrd>(a: T, b: T) -> (r: T)
    ensures
        r == a || r == b,
        T::obeys_partial_cmp_spec() ==> r == (if a.is_gt(&b) { b } else { a }),
{
    if a > b {
        b
    } else {
        a
    }
}

/// The true range of a period: the larger of `high` and `prev_close` minus the smaller of
/// `low` and `prev_close`.
pub open spec fn true_range<T: Copy + PartialOrd + Sub<Output = T>>(
    high: T,
    low: T,
    prev_close: T,
) -> T {
    let top = if high.is_gt(&prev_close) { high } else { prev_close };
    let bottom = if low.is_gt(&prev_close) { prev_close } else { low };
    top.sub_spec(bottom)
}

/// Computes the true range of a period from its high, its low and the previous close.
pub(crate) fn get_tr<T: Copy + PartialOrd + Sub<Output = T>>(high: T, low: T, prev_close: T) -> (r: T)
    requires
        T::obeys_partial_cmp_spec(),
        T::obeys_sub_spec(),
        ({
            let top = if high.is_gt(&prev_close) { high } else { prev_close };
            let bottom = if low.is_gt(&prev_close) { prev_close } else { low };
            top.sub_req(bottom)
        }),
    ensures
        r == true_range(high, low, prev_close),
{
    partial_max2(high, prev_close) - partial_min2(low, prev_close)
}

/// For `i64` with `low <= high`, the true range is the largest of `high - low`,
/// `|high - prev_close|` and `|low - prev_close|`.
pub proof fn lemma_true_range_i64(high: i64, low: i64, prev_close: i64)
    requires
        low <= high,
        high - low <= i64::MAX,
        high - prev_close <= i64::MAX,
        prev_close - low <= i64::MAX,
    ensures
        ({
            let a = high - low;
            let b = if high >= prev_close { high - prev_close } else { prev_close - high };
            let c = if low >= prev_close { low - prev_close } else { prev_close - low };
            &&& true_range(high, low, prev_close) as int >= a
            &&& true_range(high, low, prev_close) as int >= b
            &&& true_range(high, low, prev_close) as int >= c
            &&& (true_range(high, low, prev_close) == a || true_range(high, low, prev_close) == b
                || true_range(high, low, prev_close) == c)
        }),
{
}

/// For `i128` with `low <= high`, the true range is the largest of `high - low`,
/// `|high - prev_close|` and `|low - prev_close|`.
pub proof fn lemma_true_range_i128(high: i128, low: i128, prev_close: i128)
    requires
        low <= high,
        high - low <= i128::MAX,
        high - prev_close <= i128::MAX,
        prev_close - low <= i128::MAX,
    ensures
        ({
            let a = high - low;
            let b = if high >= prev_close { high - prev_close } else { prev_close - high };
            let c = if low >= prev_close { low - prev_close } else { prev_close - low };
            &&& true_range(high, low, prev_close) as int >= a
            &&& true_range(high, low, prev_close) as int >= b
            &&& true_range(high, low, prev_close) as int >= c
            &&& (true_range(high, low, prev_close) == a || true_range(high, low, prev_close) == b
                || true_range(high, low, prev_close) == c)
        }),
{
}

/// The last `n` items of `s` (all of `s` when it has no more than `n`).
pub open spec fn keep_last<T>(s: Seq<T>, n: nat) -> Seq<T> {
    if s.len() <= n {
        s
    } else {
        s.subrange(s.len() - n, s.len() as int)
    }
}

/// Position in a buffer of `n` slots of the `i`-th item of a ring that starts at `start`.
pub open spec fn ring_pos(start: int, i: int, n: int) -> int {
    if start + i < n {
        start + i
    } else {
        start + i - n
    }
}

proof fn lemma_step_mod(x: int, n: int)
    requires
        0 < n,
        0 <= x <= n,
    ensures
        x % n == (if x == n { 0 } else { x }),
{
    if x == n {
        vstd::arithmetic::div_mod::lemma_fundamental_div_mod_converse(x, n, 1, 0);
    } else {
        vstd::arithmetic::div_mod::lemma_small_mod(x as nat, n as nat);
    }
}

/// A fixed-size circular buffer holding at most `N` items: once it is full, each new item
/// replaces the oldest one.
///
/// Its view is the sequence of items it holds, oldest first.
pub struct SlidingWindow<T, const N: usize> {
    buf: Vec<T>,
    idx: usize,
    len: usize,
}

impl<T, const N: usize> View for SlidingWindow<T, N> {
    type V = Seq<T>;

    closed spec fn view(&self) -> Seq<T> {
        let start: int = if self.len < N { 0 } else { self.idx as int };
        Seq::new(self.len as nat, |i: int| self.buf@[ring_pos(start, i, N as int)])
    }
}

impl<T: Copy, const N: usize> SlidingWindow<T, N> {
    /// The window's internal invariant.
    pub closed spec fn wf(&self) -> bool {
        &&& N > 0
        &&& self.buf@.len() == N
        &&& self.len <= N
        &&& self.idx < N
        &&& self.len < N ==> self.idx == self.len
    }

    /// The buffer slot the next item is written to.
    pub closed spec fn slot(&self) -> nat {
        self.idx as nat
    }

    /// `next` is this window after adding the items of `batch` in order: it holds the last `N`
    /// of all items, and its next slot has moved on by the number of items added, modulo `N`.
    pub open spec fn pushed(&self, batch: Seq<T>, next: Self) -> bool {
        &&& next.wf()
        &&& next@ == keep_last(self@ + batch, N as nat)
        &&& next.slot() == (self.slot() + batch.len()) as int % (N as int)
    }

    /// The window never holds more than `N` items, and until it is full the next slot is its
    /// length.
    pub proof fn lemma_view_facts(&self)
        requires
            self.wf(),
        ensures
            self@.len() <= N,
            self.slot() < N,
            self@.len() < N ==> self.slot() == self@.len(),
    {
    }

    /// A window that went through a history of additions (`push` adds a batch of one item,
    /// `push_many` a batch of several) is in the state that adding all those items at once,
    /// in order, leaves it in: it holds the last `N` items of its old contents followed by
    /// all items added, and its next slot has moved on by their number, modulo `N`.
    pub proof fn lemma_history(states: Seq<Self>, batches: Seq<Seq<T>>)
        requires
            states.len() == batches.len() + 1,
            states[0].wf(),
            forall|i: int|
                0 <= i < batches.len() ==> #[trigger] states[i].pushed(batches[i], states[i + 1]),
        ensures
            states[0].pushed(joined(batches), states.last()),
        decreases batches.len(),
    {
        let s0 = states[0];
        s0.lemma_view_facts();
        if batches.len() == 0 {
            assert(s0@ + Seq::<T>::empty() =~= s0@);
            vstd::arithmetic::div_mod::lemma_small_mod(s0.slot(), N as nat);
        } else {
            let m = batches.len() - 1;
            let st = states.drop_last();
            let bt = batches.drop_last();
            assert forall|i: int| 0 <= i < bt.len() implies #[trigger] st[i].pushed(
                bt[i],
                st[i + 1],
            ) by {
                assert(states[i].pushed(batches[i], states[i + 1]));
            }
            Self::lemma_history(st, bt);
            assert(states[m].pushed(batches[m], states[m + 1]));
            let jt = joined(bt);
            let b = batches[m];
            lemma_keep_last_concat(s0@ + jt, b, N as nat);
            assert((s0@ + jt) + b =~= s0@ + (jt + b));
            vstd::arithmetic::div_mod::lemma_add_mod_noop_right(
                b.len() as int,
                (s0.slot() + jt.len()) as int,
                N as int,
            );
        }
    }

    /// A window that `new`, `reset` or nothing yet has emptied, after a history of additions,
    /// holds the last `N` items added (all of them while there are fewer), so its length is
    /// the number of items added capped at `N`; its next slot is that number modulo `N`.
    pub proof fn lemma_history_from_empty(states: Seq<Self>, batches: Seq<Seq<T>>)
        requires
            states.len() == batches.len() + 1,
            states[0].wf(),
            states[0]@ == Seq::<T>::empty(),
            states[0].slot() == 0,
            forall|i: int|
                0 <= i < batches.len() ==> #[trigger] states[i].pushed(batches[i], states[i + 1]),
        ensures
            ({
                let h = joined(batches);
                &&& states.last()@ == keep_last(h, N as nat)
                &&& states.last()@.len() == (if h.len() < N { h.len() } else { N as nat })
                &&& states.last().slot() == h.len() as int % (N as int)
            }),
    {
        Self::lemma_history(states, batches);
        assert(Seq::<T>::empty() + joined(batches) =~= joined(batches));
    }

    /// Creates an empty window; `nil` fills the slots that hold no item yet.
    pub fn new(nil: T) -> (r: Self)
        requires
            N > 0,
        ensures
            r.wf(),
            r@ == Seq::<T>::empty(),
            r.slot() == 0,
    {
        let mut buf: Vec<T> = Vec::new();
        let mut i: usize = 0;
        while i < N
            invariant
                i <= N,
                buf@.len() == i,
            decreases N - i,
        {
            buf.push(nil);
            i = i + 1;
        }
        let r = SlidingWindow { buf, idx: 0, len: 0 };
        assert(r@ =~= Seq::<T>::empty());
        r
    }

    /// Creates a full window holding the last `N` items of `slice`, or `None` when `slice` has
    /// fewer than `N` items.
    pub fn from_slice(slice: &[T]) -> (r: Option<Self>)
        requires
            N > 0,
        ensures
            slice@.len() < N <==> r is None,
            r matches Some(w) ==> {
                &&& w.wf()
                &&& w@ == slice@.subrange(slice@.len() - N, slice@.len() as int)
                &&& w@ == keep_last(slice@, N as nat)
                &&& w.slot() == 0
            },
    {
        let n = slice.len();
        if n < N {
            return None;
        }
        let first = n - N;
        let mut buf: Vec<T> = Vec::new();
        let mut i: usize = 0;
        while i < N
            invariant
                i <= N,
                first + N == n,
                n == slice@.len(),
                buf@ == slice@.subrange(first as int, first + i),
            decreases N - i,
        {
            buf.push(slice[first + i]);
            i = i + 1;
            assert(buf@ =~= slice@.subrange(first as int, first + i));
        }
        let w = SlidingWindow { buf, idx: 0, len: N };
        assert(w@ =~= slice@.subrange(n - N, n as int));
        assert(keep_last(slice@, N as nat) =~= slice@.subrange(n - N, n as int));
        Some(w)
    }

    /// Adds `value` as the newest item. When the window was already full, the oldest item
    /// leaves it and is returned; otherwise the result is `None`.
    pub fn push(&mut self, value: T) -> (r: Option<T>)
        requires
            old(self).wf(),
        ensures
            final(self).wf(),
            old(self)@.len() < N ==> r is None && final(self)@ == old(self)@.push(value),
            old(self)@.len() == N ==> r == Some(old(self)@[0]) && final(self)@ == old(
                self,
            )@.drop_first().push(value),
            final(self)@ == keep_last(old(self)@.push(value), N as nat),
            final(self).slot() == (old(self).slot() as int + 1) % (N as int),
            old(self).pushed(seq![value], *final(self)),
    {
        let ghost pre = self@;
        let ghost old_buf = self.buf@;
        let ghost old_idx = self.idx as int;
        proof {
            assert(pre.push(value) =~= pre + seq![value]);
            lemma_step_mod(self.idx + 1, N as int);
        }
        let prev = self.buf[self.idx];
        self.buf.set(self.idx, value);
        self.idx = (self.idx + 1) % N;
        if self.len < N {
            self.len = self.len + 1;
            assert(self@ =~= pre.push(value));
            None
        } else {
            assert(prev == pre[0]);
            assert forall|i: int| 0 <= i < N implies #[trigger] self@[i] == pre.drop_first().push(
                value,
            )[i] by {
                if i < N - 1 {
                    assert(pre[i + 1] == old_buf[ring_pos(old_idx, i + 1, N as int)]);
                }
            }
            assert(self@ =~= pre.drop_first().push(value));
            assert(pre.drop_first().push(value) =~= keep_last(pre.push(value), N as nat));
            Some(prev)
        }
    }

    /// Adds every item of `values` in order. The result is what the last of these additions
    /// returned (`None` when `values` is empty).
    pub fn push_many(&mut self, values: &[T]) -> (r: Option<T>)
        requires
            old(self).wf(),
        ensures
            final(self).wf(),
            old(self).pushed(values@, *final(self)),
            r == (if values@.len() > 0 && old(self)@.len() + values@.len() > N {
                Some((old(self)@ + values@)[old(self)@.len() + values@.len() - 1 - N])
            } else {
                None::<T>
            }),
    {
        let mut last: Option<T> = None;
        let mut i: usize = 0;
        let ghost start = self@;
        let ghost start_slot = self.slot() as int;
        proof {
            self.lemma_view_facts();
            vstd::arithmetic::div_mod::lemma_small_mod(start_slot as nat, N as nat);
            assert(start + values@.subrange(0, 0) =~= start);
        }
        while i < values.len()
            invariant
                self.wf(),
                i <= values@.len(),
                start.len() <= N,
                self@ == keep_last(start + values@.subrange(0, i as int), N as nat),
                self.slot() == (start_slot + i) % (N as int),
                last == (if i > 0 && start.len() + i > N {
                    Some((start + values@)[start.len() + i - 1 - N])
                } else {
                    None::<T>
                }),
            decreases values@.len() - i,
        {
            let ghost before = self@;
            proof {
                self.lemma_view_facts();
            }
            last = self.push(values[i]);
            proof {
                vstd::arithmetic::div_mod::lemma_add_mod_noop_right(1, start_slot + i, N as int);
                let all = start + values@.subrange(0, i as int);
                let all1 = start + values@.subrange(0, i + 1);
                assert(all1 =~= all.push(values@[i as int]));
                lemma_keep_last_push(all, values@[i as int], N as nat);
                if before.len() == N {
                    assert(all.len() >= N);
                    assert(before[0] == all[all.len() - N]);
                    assert(all[all.len() - N] == (start + values@)[start.len() + i - N]);
                } else {
                    assert(all.len() < N);
                }
            }
            i = i + 1;
        }
        proof {
            assert(values@.subrange(0, values@.len() as int) =~= values@);
        }
        last
    }

    /// The number of items the window can hold.
    pub fn capacity(&self) -> (r: usize)
        ensures
            r == N,
    {
        N
    }

    /// The number of items the window holds; never more than `capacity()`.
    pub fn length(&self) -> (r: usize)
        requires
            self.wf(),
        ensures
            r == self@.len(),
            r <= N,
    {
        self.len
    }

    /// The buffer slot the next item is written to.
    pub fn index(&self) -> (r: usize)
        requires
            self.wf(),
        ensures
            r == self.slot(),
            r < N,
            self@.len() < N ==> r == self@.len(),
    {
        self.idx
    }

    /// The oldest item.
    pub fn front(&self) -> (r: &T)
        requires
            self.wf(),
            self@.len() > 0,
        ensures
            *r == self@[0],
    {
        if self.len < N {
            &self.buf[0]
        } else {
            &self.buf[self.idx]
        }
    }

    /// The newest item.
    pub fn back(&self) -> (r: &T)
        requires
            self.wf(),
            self@.len() > 0,
        ensures
            *r == self@.last(),
    {
        if self.len < N {
            &self.buf[self.len - 1]
        } else if self.idx == 0 {
            &self.buf[N - 1]
        } else {
            &self.buf[self.idx - 1]
        }
    }

    /// The item at position `index` counted from the oldest, wrapping around when `index`
    /// reaches the number of items held.
    pub fn at(&self, index: usize) -> (r: &T)
        requires
            self.wf(),
            self@.len() > 0,
        ensures
            *r == self@[(index as int) % (self@.len() as int)],
    {
        let a = index % self.len;
        if self.len < N {
            &self.buf[a]
        } else if a < N - self.idx {
            &self.buf[self.idx + a]
        } else {
            &self.buf[a - (N - self.idx)]
        }
    }

    /// The items held, oldest first, as two slices of the buffer: the first runs up to the
    /// buffer's end, the second continues from its start.
    pub fn as_slices(&self) -> (r: (&[T], &[T]))
        requires
            self.wf(),
        ensures
            r.0@ + r.1@ == self@,
            self@.len() < N ==> r.1@.len() == 0,
            r.0@.len() == (if self@.len() < N { self@.len() as int } else { N - self.slot() }),
    {
        if self.len < N {
            let (left, _) = self.buf.as_slice().split_at(self.len);
            let empty: &[T] = &[];
            assert(left@ + empty@ =~= self@);
            (left, empty)
        } else {
            let (left, right) = self.buf.as_slice().split_at(self.idx);
            assert(right@ + left@ =~= self@);
            (right, left)
        }
    }

    /// Empties the window.
    pub fn reset(&mut self)
        requires
            old(self).wf(),
        ensures
            final(self).wf(),
            final(self)@ == Seq::<T>::empty(),
            final(self).slot() == 0,
    {
        self.idx = 0;
        self.len = 0;
        assert(self@ =~= Seq::<T>::empty());
    }

    /// The items held, oldest first.
    pub fn iter(&self) -> (r: Vec<T>)
        requires
            self.wf(),
        ensures
            r@ == self@,
    {
        let (a, b) = self.as_slices();
        let mut out: Vec<T> = Vec::new();
        let mut i: usize = 0;
        while i < a.len()
            invariant
                i <= a@.len(),
                out@ == a@.subrange(0, i as int),
            decreases a@.len() - i,
        {
            out.push(a[i]);
            i = i + 1;
            assert(out@ =~= a@.subrange(0, i as int));
        }
        let mut j: usize = 0;
        while j < b.len()
            invariant
                i == a@.len(),
                j <= b@.len(),
                out@ == a@ + b@.subrange(0, j as int),
            decreases b@.len() - j,
        {
            out.push(b[j]);
            j = j + 1;
            assert(out@ =~= a@ + b@.subrange(0, j as int));
        }
        assert(b@.subrange(0, b@.len() as int) =~= b@);
        out
    }
}

/// Keeps the running sum of the items of a sliding window of `N` items.
///
/// The sum starts at the `nil` value the accumulator was made with; each added item is added
/// to it, and once the window is full the item that leaves the window is subtracted.
pub struct Accumulator<T, const N: usize> {
    sliding_window: SlidingWindow<T, N>,
    sum: T,
    nil: T,
}

impl<T, const N: usize> Accumulator<T, N> where T: Copy + Add<Output = T> + Sub<Output = T> {
    /// The accumulator's internal invariant.
    pub closed spec fn wf(&self) -> bool {
        self.sliding_window.wf()
    }

    /// The items in the accumulator's window, oldest first.
    pub closed spec fn window(&self) -> Seq<T> {
        self.sliding_window@
    }

    /// The running sum.
    pub closed spec fn total(&self) -> T {
        self.sum
    }

    /// The value the sum starts from.
    pub closed spec fn nil(&self) -> T {
        self.nil
    }

    /// The sum after adding `value`.
    pub open spec fn pushed_total(&self, value: T) -> T {
        if self.window().len() < N {
            self.total().add_spec(value)
        } else {
            self.total().sub_spec(self.window()[0]).add_spec(value)
        }
    }

    /// `next` is this accumulator after adding `value`.
    pub open spec fn push_post(&self, value: T, next: Self) -> bool {
        &&& next.wf()
        &&& next.window() == keep_last(self.window().push(value), N as nat)
        &&& next.total() == self.pushed_total(value)
        &&& next.nil() == self.nil()
    }

    /// `next` is this accumulator after a reset.
    pub open spec fn reset_post(&self, next: Self) -> bool {
        &&& next.wf()
        &&& next.window() == Seq::<T>::empty()
        &&& next.total() == self.nil()
        &&& next.nil() == self.nil()
    }

    /// What adding an item returns, given the accumulator `next` it leaves: `None` while the
    /// window was not full, the new sum once it was.
    pub open spec fn push_result(&self, next: Self) -> Option<T> {
        if self.window().len() < N {
            None
        } else {
            Some(next.total())
        }
    }

    /// Adding `value` is defined: the arithmetic it performs does not fail.
    pub open spec fn push_req(&self, value: T) -> bool {
        &&& T::obeys_add_spec()
        &&& T::obeys_sub_spec()
        &&& if self.window().len() < N {
            self.total().add_req(value)
        } else {
            &&& self.total().sub_req(self.window()[0])
            &&& self.total().sub_spec(self.window()[0]).add_req(value)
        }
    }

    proof fn lemma_window_len(&self)
        requires
            self.wf(),
        ensures
            self.window().len() <= N,
            N > 0,
    {
        self.sliding_window.lemma_view_facts();
    }

    /// Creates an empty accumulator whose sum starts at `nil`.
    pub fn new(nil: T) -> (r: Self)
        requires
            N > 0,
        ensures
            r.wf(),
            r.window() == Seq::<T>::empty(),
            r.total() == nil,
            r.nil() == nil,
    {
        Accumulator { sliding_window: SlidingWindow::new(nil), sum: nil, nil }
    }

    /// Adds `value` to the window and the sum. Once the window is full, the item that leaves
    /// it is subtracted and the new sum is returned; before that the result is `None`.
    pub fn push(&mut self, value: T) -> (r: Option<T>)
        requires
            old(self).wf(),
            old(self).push_req(value),
        ensures
            old(self).push_post(value, *final(self)),
            r == old(self).push_result(*final(self)),
    {
        proof {
            self.lemma_window_len();
        }
        if let Some(prev) = self.sliding_window.push(value) {
            self.sum = self.sum - prev + value;
            Some(self.sum)
        } else {
            self.sum = self.sum + value;
            None
        }
    }

    /// Empties the window and sets the sum back to `nil`.
    pub fn reset(&mut self)
        requires
            old(self).wf(),
        ensures
            old(self).reset_post(*final(self)),
    {
        self.sliding_window.reset();
        self.sum = self.nil;
    }
}

/// The sum of the integers the items of `s` stand for.
pub open spec fn seq_sum<T: ExactInt>(s: Seq<T>) -> int
    decreases s.len(),
{
    if s.len() == 0 {
        0
    } else {
        seq_sum(s.drop_last()) + s.last().to_int()
    }
}

/// The sum of a nonempty sequence is its first item plus the sum of the rest.
pub proof fn lemma_seq_sum_first<T: ExactInt>(s: Seq<T>)
    requires
        s.len() > 0,
    ensures
        seq_sum(s) == s[0].to_int() + seq_sum(s.drop_first()),
    decreases s.len(),
{
    if s.len() == 1 {
        assert(s.drop_last().len() == 0);
        assert(s.drop_first().len() == 0);
        assert(seq_sum(s.drop_last()) == 0);
        assert(seq_sum(s.drop_first()) == 0);
    } else {
        lemma_seq_sum_first(s.drop_last());
        assert(s.drop_last()[0] == s[0]);
        assert(s.drop_last().drop_first() =~= s.drop_first().drop_last());
        assert(s.drop_first().last() == s.last());
        assert(seq_sum(s.drop_first()) == seq_sum(s.drop_first().drop_last()) + s.last().to_int());
    }
}

/// An accumulator over an exact integer type (`i64`, `i128`) keeps, as its sum, its `nil`
/// value plus the sum of the items in its window: `new` and `reset` start it so (empty window,
/// sum `nil`), and every push keeps it so.
pub proof fn lemma_accumulator_sum_tracks_window<T: ExactInt, const N: usize>(
    acc: Accumulator<T, N>,
    value: T,
    next: Accumulator<T, N>,
)
    requires
        acc.wf(),
        acc.push_req(value),
        acc.push_post(value, next),
        acc.total().to_int() == acc.nil().to_int() + seq_sum(acc.window()),
    ensures
        next.total().to_int() == next.nil().to_int() + seq_sum(next.window()),
{
    acc.lemma_window_len();
    let w = acc.window();
    if w.len() < N {
        T::lemma_add(acc.total(), value);
        assert(next.window() =~= w.push(value));
        assert(w.push(value).drop_last() =~= w);
    } else {
        T::lemma_sub(acc.total(), w[0]);
        T::lemma_add(acc.total().sub_spec(w[0]), value);
        lemma_seq_sum_first(w);
        let w2 = w.drop_first().push(value);
        assert(next.window() =~= w2);
        assert(w2.drop_last() =~= w.drop_first());
    }
}

/// An accumulator emptied by `new` or `reset`, fed `xs` one push at a time (`states[i]` is
/// its state before the push of `xs[i]`, `results[i]` what that push returned): after `i`
/// pushes its window holds the last `N` of them, so the first `N` pushes return `None` and
/// every later push returns `Some`.
pub proof fn lemma_accumulator_history<T, const N: usize>(
    states: Seq<Accumulator<T, N>>,
    xs: Seq<T>,
    results: Seq<Option<T>>,
) where T: Copy + Add<Output = T> + Sub<Output = T>
    requires
        states.len() == xs.len() + 1,
        results.len() == xs.len(),
        states[0].wf(),
        states[0].window() == Seq::<T>::empty(),
        forall|i: int|
            0 <= i < xs.len() ==> #[trigger] states[i].push_post(xs[i], states[i + 1]),
        forall|i: int|
            0 <= i < xs.len() ==> #[trigger] results[i] == states[i].push_result(states[i + 1]),
    ensures
        forall|i: int|
            0 <= i <= xs.len() ==> #[trigger] states[i].window() == keep_last(
                xs.take(i),
                N as nat,
            ),
        forall|i: int| 0 <= i < xs.len() ==> (#[trigger] results[i] is Some <==> i >= N),
{
    states[0].lemma_window_len();
    assert forall|i: int| 0 <= i <= xs.len() implies #[trigger] states[i].window() == keep_last(
        xs.take(i),
        N as nat,
    ) by {
        lemma_accumulator_window_at(states, xs, i);
    }
    assert forall|i: int| 0 <= i < xs.len() implies (#[trigger] results[i] is Some <==> i >= N) by {
        lemma_accumulator_window_at(states, xs, i);
        assert(results[i] == states[i].push_result(states[i + 1]));
    }
}

proof fn lemma_accumulator_window_at<T, const N: usize>(
    states: Seq<Accumulator<T, N>>,
    xs: Seq<T>,
    i: int,
) where T: Copy + Add<Output = T> + Sub<Output = T>
    requires
        states.len() == xs.len() + 1,
        0 <= i <= xs.len(),
        states[0].wf(),
        states[0].window() == Seq::<T>::empty(),
        forall|j: int|
            0 <= j < xs.len() ==> #[trigger] states[j].push_post(xs[j], states[j + 1]),
    ensures
        states[i].wf(),
        states[i].window() == keep_last(xs.take(i), N as nat),
        states[i].window().len() == (if i < N { i } else { N as int }),
        states[i].nil() == states[0].nil(),
    decreases i,
{
    states[0].lemma_window_len();
    if i == 0 {
        assert(xs.take(0) =~= Seq::<T>::empty());
    } else {
        lemma_accumulator_window_at(states, xs, i - 1);
        let j = i - 1;
        assert(states[j].push_post(xs[j], states[j + 1]));
        lemma_keep_last_push(xs.take(i - 1), xs[i - 1], N as nat);
        assert(xs.take(i - 1).push(xs[i - 1]) =~= xs.take(i));
    }
}

/// An accumulator over an exact integer type emptied by `new` or `reset`, fed `xs`: every
/// `Some` a push returns is `nil` plus the sum of the last `N` items pushed, that push's item
/// included.
pub proof fn lemma_accumulator_history_sums<T: ExactInt, const N: usize>(
    states: Seq<Accumulator<T, N>>,
    xs: Seq<T>,
    results: Seq<Option<T>>,
)
    requires
        states.len() == xs.len() + 1,
        results.len() == xs.len(),
        states[0].wf(),
        states[0].window() == Seq::<T>::empty(),
        states[0].total() == states[0].nil(),
        forall|i: int| 0 <= i < xs.len() ==> #[trigger] states[i].push_req(xs[i]),
        forall|i: int|
            0 <= i < xs.len() ==> #[trigger] states[i].push_post(xs[i], states[i + 1]),
        forall|i: int|
            0 <= i < xs.len() ==> #[trigger] results[i] == states[i].push_result(states[i + 1]),
    ensures
        forall|i: int|
            0 <= i <= xs.len() ==> #[trigger] states[i].total().to_int() == states[0].nil().to_int()
                + seq_sum(keep_last(xs.take(i), N as nat)),
        forall|i: int|
            0 <= i < xs.len() ==> (#[trigger] results[i] matches Some(t) ==> t.to_int()
                == states[0].nil().to_int() + seq_sum(keep_last(xs.take(i + 1), N as nat))),
{
    assert forall|i: int| 0 <= i <= xs.len() implies #[trigger] states[i].total().to_int()
        == states[0].nil().to_int() + seq_sum(keep_last(xs.take(i), N as nat)) by {
        lemma_accumulator_sum_at(states, xs, i);
    }
    assert forall|i: int| 0 <= i < xs.len() implies (#[trigger] results[i] matches Some(t)
        ==> t.to_int() == states[0].nil().to_int() + seq_sum(
        keep_last(xs.take(i + 1), N as nat),
    )) by {
        lemma_accumulator_sum_at(states, xs, i + 1);
        assert(results[i] == states[i].push_result(states[i + 1]));
    }
}

proof fn lemma_accumulator_sum_at<T: ExactInt, const N: usize>(
    states: Seq<Accumulator<T, N>>,
    xs: Seq<T>,
    i: int,
)
    requires
        states.len() == xs.len() + 1,
        0 <= i <= xs.len(),
        states[0].wf(),
        states[0].window() == Seq::<T>::empty(),
        states[0].total() == states[0].nil(),
        forall|j: int| 0 <= j < xs.len() ==> #[trigger] states[j].push_req(xs[j]),
        forall|j: int|
            0 <= j < xs.len() ==> #[trigger] states[j].push_post(xs[j], states[j + 1]),
    ensures
        states[i].total().to_int() == states[0].nil().to_int() + seq_sum(
            keep_last(xs.take(i), N as nat),
        ),
    decreases i,
{
    lemma_accumulator_window_at(states, xs, i);
    if i > 0 {
        lemma_accumulator_sum_at(states, xs, i - 1);
        lemma_accumulator_window_at(states, xs, i - 1);
        let j = i - 1;
        assert(states[j].push_req(xs[j]));
        assert(states[j].push_post(xs[j], states[j + 1]));
        lemma_accumulator_sum_tracks_window(states[i - 1], xs[i - 1], states[i]);
    } else {
        assert(states[0].window() =~= keep_last(xs.take(0), N as nat));
    }
}

/// The batches of `bs` joined in order.
pub open spec fn joined<T>(bs: Seq<Seq<T>>) -> Seq<T>
    decreases bs.len(),
{
    if bs.len() == 0 {
        Seq::<T>::empty()
    } else {
        joined(bs.drop_last()) + bs.last()
    }
}

/// Keeping the last `n` items, adding more, and keeping the last `n` again is the same as
/// keeping the last `n` of everything.
pub proof fn lemma_keep_last_concat<T>(s: Seq<T>, t: Seq<T>, n: nat)
    requires
        n > 0,
    ensures
        keep_last(keep_last(s, n) + t, n) == keep_last(s + t, n),
{
    assert(keep_last(keep_last(s, n) + t, n) =~= keep_last(s + t, n));
}

/// Pushing onto the last `n` items and keeping the last `n` again is the same as keeping the
/// last `n` items of everything pushed.
pub proof fn lemma_keep_last_push<T>(s: Seq<T>, v: T, n: nat)
    requires
        n > 0,
    ensures
        keep_last(keep_last(s, n).push(v), n) == keep_last(s.push(v), n),
{
    assert(keep_last(keep_last(s, n).push(v), n) =~= keep_last(s.push(v), n));
}

} // verus!
