//! The position set a candidate character can stand for.

use core::cmp::Ordering;
use vstd::prelude::*;

use crate::model::{ascending, slot_all_above, slot_all_below, Slots};

verus! {

/// Maps a sequence of concrete indices to the model's mathematical positions.
pub open spec fn usv(v: Seq<usize>) -> Seq<int> {
    v.map_values(|u: usize| u as int)
}

/// All pattern positions that one candidate character can stand for, in
/// strictly ascending order.
pub struct CharMatch {
    pub positions: Vec<usize>,
}

impl View for CharMatch {
    type V = Seq<int>;

    open spec fn view(&self) -> Seq<int> {
        usv(self.positions@)
    }
}

/// The model slots that a vector of optional position sets stands for.
pub open spec fn view_slots(v: Seq<Option<CharMatch>>) -> Slots {
    v.map_values(
        |o: Option<CharMatch>|
            match o {
                Some(cm) => Some(cm@),
                None => None,
            },
    )
}

impl CharMatch {
    /// A position set holding the single pattern position `idx`.
    pub fn new(idx: usize) -> (cm: CharMatch)
        ensures
            cm@ == seq![idx as int],
    {
        let cm = CharMatch { positions: vec![idx] };
        proof {
            assert(cm@ =~= seq![idx as int]);
        }
        cm
    }

    /// Appends a further pattern position.
    pub fn push(&mut self, idx: usize)
        ensures
            final(self)@ == old(self)@.push(idx as int),
    {
        self.positions.push(idx);
        proof {
            assert(self@ =~= old(self)@.push(idx as int));
        }
    }

    /// How this position set relates to pattern position `idx` during the
    /// forward pruning pass: `Equal` when it can serve `idx` itself, `Less`
    /// when it holds a position below `idx` (it may still serve an earlier
    /// pattern position), `Greater` when every position exceeds `idx` (it
    /// could only serve a later one, so the pass must empty it).
    pub fn valid_before(&self, idx: usize) -> (r: Ordering)
        ensures
            r == Ordering::Equal <==> self@.contains(idx as int),
            r == Ordering::Greater <==> !self@.contains(idx as int) && slot_all_above(
                self@,
                idx as int,
            ),
            r == Ordering::Less <==> !self@.contains(idx as int) && !slot_all_above(
                self@,
                idx as int,
            ),
    {
        let mut found_below = false;
        let mut k: usize = 0;
        while k < self.positions.len()
            invariant
                k <= self.positions.len(),
                forall|j: int| 0 <= j < k ==> self@[j] != idx as int,
                found_below <==> exists|j: int| 0 <= j < k && #[trigger] self@[j] < idx as int,
            decreases self.positions.len() - k,
        {
            if self.positions[k] == idx {
                assert(self@[k as int] == idx as int);
                return Ordering::Equal;
            } else if self.positions[k] < idx {
                assert(self@[k as int] < idx as int);
                found_below = true;
            }
            k += 1;
        }
        if found_below {
            Ordering::Less
        } else {
            Ordering::Greater
        }
    }

    /// How this position set relates to pattern position `idx` during the
    /// backward pruning pass: `Equal` when it can serve `idx`, `Greater` when
    /// it holds a position above `idx` (it may still serve a later pattern
    /// position), `Less` when every position lags behind `idx` (the pass must
    /// empty it).
    pub fn valid_after(&self, idx: usize) -> (r: Ordering)
        requires
            ascending(self@),
        ensures
            r == Ordering::Equal <==> self@.contains(idx as int),
            r == Ordering::Less <==> !self@.contains(idx as int) && slot_all_below(
                self@,
                idx as int,
            ),
            r == Ordering::Greater <==> !self@.contains(idx as int) && !slot_all_below(
                self@,
                idx as int,
            ),
    {
        let mut k: usize = 0;
        while k < self.positions.len()
            invariant
                ascending(self@),
                k <= self.positions.len(),
                forall|j: int| 0 <= j < k ==> self@[j] < idx as int,
            decreases self.positions.len() - k,
        {
            if self.positions[k] == idx {
                assert(self@[k as int] == idx as int);
                return Ordering::Equal;
            } else if idx < self.positions[k] {
                assert(self@[k as int] > idx as int);
                assert(!self@.contains(idx as int)) by {
                    assert(forall|j: int| k < j < self@.len() ==> self@[k as int] < #[trigger] self@[j]);
                }
                return Ordering::Greater;
            }
            k += 1;
        }
        assert(!self@.contains(idx as int));
        Ordering::Less
    }

    /// One fresh single-position streak for each position in the set: the
    /// starting points of the branches anchored at one candidate position.
    pub fn split_indices(&self) -> (r: Vec<Vec<usize>>)
        ensures
            r@.len() == self@.len(),
            forall|k: int| 0 <= k < r@.len() ==> usv(#[trigger] r@[k]@) == seq![self@[k]],
    {
        let mut r: Vec<Vec<usize>> = Vec::new();
        let mut k: usize = 0;
        while k < self.positions.len()
            invariant
                k <= self.positions.len(),
                r@.len() == k,
                forall|j: int| 0 <= j < k ==> usv(#[trigger] r@[j]@) == seq![self@[j]],
            decreases self.positions.len() - k,
        {
            let st: Vec<usize> = vec![self.positions[k]];
            proof {
                assert(usv(st@) =~= seq![self@[k as int]]);
            }
            r.push(st);
            k += 1;
        }
        r
    }

    /// Tries to extend a streak whose last implied pattern position is
    /// `streak.last()`: succeeds exactly when this set carries the next
    /// pattern position, appending it and keeping `max_len` at the longest
    /// streak length seen.
    pub fn try_extend(&self, streak: &mut Vec<usize>, max_len: &mut usize) -> (extended: bool)
        requires
            old(streak)@.len() >= 1,
        ensures
            extended <==> self@.contains(old(streak)@.last() + 1),
            extended ==> {
                &&& final(streak)@ == old(streak)@.push((old(streak)@.last() + 1) as usize)
                &&& *final(max_len) == if old(streak)@.len() + 1 > *old(max_len) {
                    old(streak)@.len() + 1 as int
                } else {
                    *old(max_len) as int
                }
            },
            !extended ==> final(streak)@ == old(streak)@ && *final(max_len) == *old(max_len),
    {
        let last = streak[streak.len() - 1];
        let mut k: usize = 0;
        while k < self.positions.len()
            invariant
                streak@ == old(streak)@,
                max_len == old(max_len),
                last == old(streak)@.last(),
                k <= self.positions.len(),
                forall|j: int| 0 <= j < k ==> self@[j] != last + 1,
            decreases self.positions.len() - k,
        {
            let p = self.positions[k];
            if p > 0 && last == p - 1 {
                assert(self@[k as int] == last + 1);
                streak.push(p);
                if *max_len < streak.len() {
                    *max_len = streak.len();
                }
                return true;
            }
            assert(self@[k as int] != last + 1);
            k += 1;
        }
        false
    }
}

} // verus!
