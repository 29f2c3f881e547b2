//! Bookkeeping of the live-telemetry view: bounded histories and flight-state
//! change detection.

use std::collections::VecDeque;

use vstd::prelude::*;

use crate::telemetry::packet::FlightState;

verus! {

/// How many samples of each live series are kept.
pub const MAX_DATA_POINTS: usize = 500;

/// How many console lines are kept.
pub const MAX_CONSOLE_ENTRIES: usize = 1000;

/// The last `n` elements of `s` (all of them if there are fewer).
pub open spec fn keep_newest<T>(s: Seq<T>, n: nat) -> Seq<T> {
    if s.len() > n {
        s.skip(s.len() - n)
    } else {
        s
    }
}

/// A history that keeps only its newest `capacity` values.
pub struct BoundedSeries<T> {
    items: VecDeque<T>,
    capacity: usize,
}

impl<T> View for BoundedSeries<T> {
    type V = Seq<T>;

    /// The values held, oldest first.
    closed spec fn view(&self) -> Seq<T> {
        self.items@
    }
}

impl<T> BoundedSeries<T> {
    /// The most values the history holds.
    pub closed spec fn capacity(&self) -> nat {
        self.capacity as nat
    }

    /// The history holds no more than its capacity, which is positive.
    pub closed spec fn wf(&self) -> bool {
        0 < self.capacity && self.items@.len() <= self.capacity
    }

    /// An empty history holding at most `capacity` values.
    pub fn new(capacity: usize) -> (s: Self)
        requires
            capacity > 0,
        ensures
            s.wf(),
            s@ == Seq::<T>::empty(),
            s.capacity() == capacity,
    {
        Self { items: VecDeque::with_capacity(capacity), capacity }
    }

    /// Appends `value`, dropping the oldest value when the history is full.
    pub fn push(&mut self, value: T)
        requires
            old(self).wf(),
        ensures
            final(self).wf(),
            final(self).capacity() == old(self).capacity(),
            final(self)@ == keep_newest(old(self)@.push(value), old(self).capacity()),
    {
        if self.items.len() >= self.capacity {
            let _ = self.items.pop_front();
        }
        self.items.push_back(value);
        assert(self.items@ =~= keep_newest(old(self)@.push(value), old(self).capacity()));
    }

    /// The number of values held.
    pub fn len(&self) -> (n: usize)
        ensures
            n == self@.len(),
    {
        self.items.len()
    }

    /// The `i`-th value, oldest first.
    pub fn get(&self, i: usize) -> (v: &T)
        requires
            i < self@.len(),
        ensures
            *v == self@[i as int],
    {
        &self.items[i]
    }

    /// The values held, oldest first.
    pub fn as_deque(&self) -> (d: &VecDeque<T>)
        ensures
            d@ == self@,
    {
        &self.items
    }

    /// Forgets every value.
    pub fn clear(&mut self)
        requires
            old(self).wf(),
        ensures
            final(self).wf(),
            final(self).capacity() == old(self).capacity(),
            final(self)@ == Seq::<T>::empty(),
    {
        self.items.clear();
    }
}

/// The history after pushing the values `xs` in order onto the values `s`.
pub open spec fn push_all<T>(s: Seq<T>, xs: Seq<T>, n: nat) -> Seq<T>
    decreases xs.len(),
{
    if xs.len() == 0 {
        s
    } else {
        push_all(keep_newest(s.push(xs[0]), n), xs.drop_first(), n)
    }
}

/// Trimming before a push and trimming after it agree.
proof fn lemma_keep_newest_push<T>(s: Seq<T>, v: T, n: nat)
    requires
        n > 0,
    ensures
        keep_newest(keep_newest(s, n).push(v), n) == keep_newest(s.push(v), n),
{
    assert(keep_newest(keep_newest(s, n).push(v), n) =~= keep_newest(s.push(v), n));
}

/// However values are pushed, a history holds exactly the newest `capacity`
/// of everything it was given, in order.
pub proof fn lemma_history_keeps_newest<T>(s: Seq<T>, xs: Seq<T>, n: nat)
    requires
        n > 0,
    ensures
        push_all(keep_newest(s, n), xs, n) == keep_newest(s + xs, n),
    decreases xs.len(),
{
    if xs.len() == 0 {
        assert(s + xs =~= s);
        assert(keep_newest(keep_newest(s, n), n) =~= keep_newest(s, n));
    } else {
        lemma_keep_newest_push(s, xs[0], n);
        lemma_history_keeps_newest(s.push(xs[0]), xs.drop_first(), n);
        assert(s.push(xs[0]) + xs.drop_first() =~= s + xs);
    }
}

/// Whether a packet in state `now` starts a new entry in the console: it does
/// unless the previous packet was in the same state.
pub fn flight_state_changed(last: Option<FlightState>, now: FlightState) -> (changed: bool)
    ensures
        changed == (last != Some(now)),
{
    match last {
        Some(s) => s != now,
        None => true,
    }
}

} // verus!
