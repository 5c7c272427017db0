//! Mathematical model of the matcher.
//!
//! Everything here is specification-level: the sequence of characters of the
//! query (the pattern) and of the candidate (the text) are modelled as
//! `Seq<char>`, a position set as a `Seq<int>` of pattern indices, and the
//! per-candidate-position alignment slots as a `Seq<Option<Seq<int>>>`.
//! The executable pipeline in the other modules is proved to compute exactly
//! [`spec_score`].

use vstd::prelude::*;

verus! {

/// One alignment slot per candidate position: `None` when the candidate
/// character matches no query character, otherwise the pattern positions it
/// could stand for.
pub type Slots = Seq<Option<Seq<int>>>;

/// First scalar value of the lowercase mapping of `c`, as `char::to_lowercase`
/// computes it. The mapping depends on the character alone, so it can be
/// named; the trusted wrapper `matching::lower_first` returns it.
pub uninterp spec fn lower_first_of(c: char) -> char;

/// The strictly ascending positions at which `c` occurs in `p`.
pub open spec fn positions_of(p: Seq<char>, c: char) -> Seq<int>
    decreases p.len(),
{
    if p.len() == 0 {
        Seq::empty()
    } else if p.last() == c {
        positions_of(p.drop_last(), c).push(p.len() - 1)
    } else {
        positions_of(p.drop_last(), c)
    }
}

/// The slot a candidate character `c` gets before pruning: the positions of
/// `c` in the pattern; if `c` occurs nowhere in the pattern, the positions of
/// its lowercase folding; `None` if that also occurs nowhere. The fallback is
/// asymmetric on purpose: an upper-case candidate character may satisfy a
/// lower-case query character, never the reverse.
pub open spec fn initial_slot(p: Seq<char>, c: char) -> Option<Seq<int>> {
    if positions_of(p, c).len() > 0 {
        Some(positions_of(p, c))
    } else if positions_of(p, lower_first_of(c)).len() > 0 {
        Some(positions_of(p, lower_first_of(c)))
    } else {
        None
    }
}

pub open spec fn initial_slots(p: Seq<char>, t: Seq<char>) -> Slots {
    Seq::new(t.len(), |i: int| initial_slot(p, t[i]))
}

pub open spec fn ascending(ps: Seq<int>) -> bool {
    forall|a: int, b: int| 0 <= a < b < ps.len() ==> ps[a] < ps[b]
}

/// A well-formed slot is `None` or a non-empty strictly ascending sequence of
/// pattern positions below `m`.
pub open spec fn wf_slot(o: Option<Seq<int>>, m: int) -> bool {
    match o {
        None => true,
        Some(ps) => {
            &&& ps.len() >= 1
            &&& ascending(ps)
            &&& forall|k: int| 0 <= k < ps.len() ==> 0 <= #[trigger] ps[k] < m
        },
    }
}

pub open spec fn wf_slots(slots: Slots, m: int) -> bool {
    forall|j: int| 0 <= j < slots.len() ==> wf_slot(#[trigger] slots[j], m)
}

pub open spec fn slot_all_above(ps: Seq<int>, i: int) -> bool {
    forall|k: int| 0 <= k < ps.len() ==> ps[k] > i
}

pub open spec fn slot_all_below(ps: Seq<int>, i: int) -> bool {
    forall|k: int| 0 <= k < ps.len() ==> ps[k] < i
}

/// One inner scan of the forward pruning pass, for pattern position `i`,
/// walking candidate slots upward from `ti`. A slot whose positions all
/// exceed `i` could only serve a pattern position later than the pass has
/// reached, so it is emptied; a slot containing `i` serves it, the scan stops
/// and the bound moves past that slot; a slot with a position below `i` may
/// still serve an earlier pattern position and is left alone. Returns the
/// slots and the new bound (`b` if `i` found no slot).
pub open spec fn fwd_scan(slots: Slots, i: int, ti: int, b: int) -> (Slots, int)
    decreases slots.len() - ti,
{
    if ti < 0 || ti >= slots.len() {
        (slots, b)
    } else {
        match slots[ti] {
            None => fwd_scan(slots, i, ti + 1, b),
            Some(ps) => {
                if ps.contains(i) {
                    (slots, ti + 1)
                } else if slot_all_above(ps, i) {
                    fwd_scan(slots.update(ti, None), i, ti + 1, b)
                } else {
                    fwd_scan(slots, i, ti + 1, b)
                }
            },
        }
    }
}

/// The forward pruning pass: scan once for each pattern position `i` in
/// `i..m`, threading the lower bound on the first usable candidate position.
pub open spec fn fwd_pass(slots: Slots, i: int, b: int, m: int) -> (Slots, int)
    decreases m - i,
{
    if i >= m {
        (slots, b)
    } else {
        let r = fwd_scan(slots, i, b, b);
        fwd_pass(r.0, i + 1, r.1, m)
    }
}

/// One inner scan of the backward pruning pass, for pattern position `i`,
/// walking candidate slots downward from `ti`. A slot whose positions are all
/// below `i` lags behind what a right-to-left assignment requires and is
/// emptied; a slot containing `i` serves it and becomes the new upper bound.
pub open spec fn bwd_scan(slots: Slots, i: int, ti: int, b: int) -> (Slots, int)
    decreases ti + 1,
{
    if ti < 0 || ti >= slots.len() {
        (slots, b)
    } else {
        match slots[ti] {
            None => bwd_scan(slots, i, ti - 1, b),
            Some(ps) => {
                if ps.contains(i) {
                    (slots, ti)
                } else if slot_all_below(ps, i) {
                    bwd_scan(slots.update(ti, None), i, ti - 1, b)
                } else {
                    bwd_scan(slots, i, ti - 1, b)
                }
            },
        }
    }
}

/// The backward pruning pass: scan once for each pattern position `i` from
/// `m - 1` down to `0`, threading the upper bound (exclusive) on the last
/// usable candidate position.
pub open spec fn bwd_pass(slots: Slots, i: int, b: int) -> (Slots, int)
    decreases i + 1,
{
    if i < 0 {
        (slots, b)
    } else {
        let r = bwd_scan(slots, i, b - 1, b);
        bwd_pass(r.0, i - 1, r.1)
    }
}

/// The alignment slots of pattern `p` against text `t` after both pruning
/// passes.
pub open spec fn pruned_slots(p: Seq<char>, t: Seq<char>) -> Slots {
    bwd_pass(fwd_pass(initial_slots(p, t), 0, 0, p.len() as int).0, p.len() - 1, t.len() as int).0
}

pub open spec fn all_none(slots: Slots) -> bool {
    forall|j: int| 0 <= j < slots.len() ==> slots[j] is None
}

/// Candidate position `pos` can stand for pattern position `q`.
pub open spec fn slot_has(slots: Slots, pos: int, q: int) -> bool {
    &&& 0 <= pos < slots.len()
    &&& slots[pos] matches Some(ps) && ps.contains(q)
}

/// A streak: `len` adjacent candidate positions starting at `s` whose implied
/// pattern positions start at `q` and advance by exactly one per step.
pub open spec fn is_streak(slots: Slots, s: int, q: int, len: int) -> bool {
    &&& 1 <= len
    &&& forall|k: int| 0 <= k < len ==> #[trigger] slot_has(slots, s + k, q + k)
}

/// Length of the longest streak starting at candidate position `pos` with
/// pattern position `q`: extend while each next slot carries the next pattern
/// position.
pub open spec fn max_run_at(slots: Slots, pos: int, q: int) -> int
    decreases slots.len() - pos,
{
    if !slot_has(slots, pos, q) {
        0
    } else {
        1 + max_run_at(slots, pos + 1, q + 1)
    }
}

/// The best streak length anchored at candidate position `s`, over the
/// pattern positions `ps` its slot offers as starting points.
pub open spec fn best_run_over(slots: Slots, s: int, ps: Seq<int>) -> int
    decreases ps.len(),
{
    if ps.len() == 0 {
        0
    } else {
        let rest = best_run_over(slots, s, ps.drop_last());
        let r = max_run_at(slots, s, ps.last());
        if r > rest {
            r
        } else {
            rest
        }
    }
}

/// The raw value of a streak of length `len` starting at candidate position
/// `s` in a candidate of `n` characters: 50 points per matched character,
/// a bonus of up to 200 for the fraction of the candidate covered, a bonus of
/// up to 100 for finishing near the candidate's end, and 100 more when the
/// candidate is a bare leaf name. The fractional bonuses are summed and then
/// rounded down once.
pub open spec fn spec_streak_score(s: int, len: int, n: int, leaf: bool) -> int {
    50 * len + (200 * len + 100 * (s + len) + (if leaf {
        100int
    } else {
        0int
    }) * n) / n
}

/// The best raw value of any streak anchored at candidate position `s`.
pub open spec fn best_at(slots: Slots, s: int, n: int, leaf: bool) -> int {
    match slots[s] {
        None => 0,
        Some(ps) => spec_streak_score(s, best_run_over(slots, s, ps), n, leaf),
    }
}

/// The best raw value of any streak anchored at candidate position `s` or
/// later; 0 when no slot from `s` on is usable.
pub open spec fn highest_from(slots: Slots, s: int, n: int, leaf: bool) -> int
    decreases slots.len() - s,
{
    if s < 0 || s >= slots.len() {
        0
    } else {
        let rest = highest_from(slots, s + 1, n, leaf);
        let here = best_at(slots, s, n, leaf);
        if here > rest {
            here
        } else {
            rest
        }
    }
}

/// The candidate earns the leaf bonus when, after stripping one trailing
/// path separator if present, it contains no path separator at all.
pub open spec fn spec_leaf(t: Seq<char>) -> bool {
    if t.len() > 0 && t.last() == '/' {
        !t.drop_last().contains('/')
    } else {
        !t.contains('/')
    }
}

/// Inputs whose character counts stay below this bound keep every
/// intermediate value of the score assembly inside `i64`.
pub open spec fn max_len() -> int {
    0x40_0000_0000_0000
}

/// The rank of candidate `t` for pattern `p`, ascending order listing better
/// matches first. An empty pattern ranks candidates by bare length; a
/// candidate equal to the pattern gets the fixed best sentinel; a candidate
/// none of whose slots survive pruning gets the fixed worst sentinel; any
/// other candidate gets the negated best raw streak value.
pub open spec fn spec_score(p: Seq<char>, t: Seq<char>) -> int {
    if p.len() == 0 {
        t.len() as int
    } else if p == t {
        -10000
    } else {
        let slots = pruned_slots(p, t);
        if all_none(slots) {
            10000
        } else {
            -highest_from(slots, 0, t.len() as int, spec_leaf(t))
        }
    }
}

/// `s2` narrows `s1`: same length, and each slot is unchanged or emptied.
pub open spec fn narrowed(s1: Slots, s2: Slots) -> bool {
    &&& s2.len() == s1.len()
    &&& forall|j: int| 0 <= j < s1.len() ==> #[trigger] s2[j] == s1[j] || s2[j] is None
}

pub proof fn lemma_fwd_scan_narrows(slots: Slots, i: int, ti: int, b: int)
    ensures
        narrowed(slots, fwd_scan(slots, i, ti, b).0),
    decreases slots.len() - ti,
{
    if ti < 0 || ti >= slots.len() {
    } else {
        match slots[ti] {
            None => lemma_fwd_scan_narrows(slots, i, ti + 1, b),
            Some(ps) => {
                if ps.contains(i) {
                } else if slot_all_above(ps, i) {
                    lemma_fwd_scan_narrows(slots.update(ti, None), i, ti + 1, b);
                } else {
                    lemma_fwd_scan_narrows(slots, i, ti + 1, b);
                }
            },
        }
    }
}

pub proof fn lemma_fwd_pass_narrows(slots: Slots, i: int, b: int, m: int)
    ensures
        narrowed(slots, fwd_pass(slots, i, b, m).0),
    decreases m - i,
{
    if i >= m {
    } else {
        let r = fwd_scan(slots, i, b, b);
        lemma_fwd_scan_narrows(slots, i, b, b);
        lemma_fwd_pass_narrows(r.0, i + 1, r.1, m);
    }
}

pub proof fn lemma_bwd_scan_narrows(slots: Slots, i: int, ti: int, b: int)
    ensures
        narrowed(slots, bwd_scan(slots, i, ti, b).0),
    decreases ti + 1,
{
    if ti < 0 || ti >= slots.len() {
    } else {
        match slots[ti] {
            None => lemma_bwd_scan_narrows(slots, i, ti - 1, b),
            Some(ps) => {
                if ps.contains(i) {
                } else if slot_all_below(ps, i) {
                    lemma_bwd_scan_narrows(slots.update(ti, None), i, ti - 1, b);
                } else {
                    lemma_bwd_scan_narrows(slots, i, ti - 1, b);
                }
            },
        }
    }
}

pub proof fn lemma_bwd_pass_narrows(slots: Slots, i: int, b: int)
    ensures
        narrowed(slots, bwd_pass(slots, i, b).0),
    decreases i + 1,
{
    if i < 0 {
    } else {
        let r = bwd_scan(slots, i, b - 1, b);
        lemma_bwd_scan_narrows(slots, i, b - 1, b);
        lemma_bwd_pass_narrows(r.0, i - 1, r.1);
    }
}

/// The initial slots are well formed: non-empty, ascending, within the
/// pattern.
pub proof fn lemma_initial_slots_wf(p: Seq<char>, t: Seq<char>)
    ensures
        initial_slots(p, t).len() == t.len(),
        wf_slots(initial_slots(p, t), p.len() as int),
{
    assert forall|j: int| 0 <= j < t.len() implies wf_slot(
        #[trigger] initial_slots(p, t)[j],
        p.len() as int,
    ) by {
        lemma_positions_of_props(p, t[j]);
        lemma_positions_of_props(p, lower_first_of(t[j]));
    }
}

/// Pruning only narrows: the pruned slots keep the initial slots' length and
/// leave each slot unchanged or emptied, so they stay well formed.
pub proof fn lemma_pruned_slots_wf(p: Seq<char>, t: Seq<char>)
    ensures
        narrowed(initial_slots(p, t), pruned_slots(p, t)),
        pruned_slots(p, t).len() == t.len(),
        wf_slots(pruned_slots(p, t), p.len() as int),
{
    lemma_initial_slots_wf(p, t);
    let init = initial_slots(p, t);
    let f = fwd_pass(init, 0, 0, p.len() as int);
    lemma_fwd_pass_narrows(init, 0, 0, p.len() as int);
    lemma_bwd_pass_narrows(f.0, p.len() - 1, t.len() as int);
}

/// A maximal run really is a streak.
pub proof fn lemma_max_run_is_streak(slots: Slots, pos: int, q: int)
    requires
        slot_has(slots, pos, q),
    ensures
        is_streak(slots, pos, q, max_run_at(slots, pos, q)),
    decreases slots.len() - pos,
{
    lemma_max_run_at_bounds(slots, pos, q);
    if slot_has(slots, pos + 1, q + 1) {
        lemma_max_run_is_streak(slots, pos + 1, q + 1);
        assert forall|k: int| 0 <= k < max_run_at(slots, pos, q) implies #[trigger] slot_has(
            slots,
            pos + k,
            q + k,
        ) by {
            if k > 0 {
                assert(slot_has(slots, (pos + 1) + (k - 1), (q + 1) + (k - 1)));
            }
        }
    } else {
        assert(max_run_at(slots, pos + 1, q + 1) == 0);
    }
}

/// The best run anchored at `s` over a non-empty position set is attained at
/// one of its positions.
pub proof fn lemma_best_run_over_attained(slots: Slots, s: int, ps: Seq<int>)
    requires
        ps.len() > 0,
    ensures
        exists|k: int|
            0 <= k < ps.len() && best_run_over(slots, s, ps) == max_run_at(slots, s, #[trigger] ps[k]),
    decreases ps.len(),
{
    let rest = best_run_over(slots, s, ps.drop_last());
    let r = max_run_at(slots, s, ps.last());
    if r > rest {
        assert(best_run_over(slots, s, ps) == max_run_at(slots, s, ps[ps.len() - 1]));
    } else {
        if ps.len() == 1 {
            assert(rest == 0);
            lemma_max_run_at_bounds(slots, s, ps.last());
            assert(r == 0);
            assert(best_run_over(slots, s, ps) == max_run_at(slots, s, ps[0]));
        } else {
            lemma_best_run_over_attained(slots, s, ps.drop_last());
            let k = choose|k: int|
                0 <= k < ps.drop_last().len() && best_run_over(slots, s, ps.drop_last())
                    == max_run_at(slots, s, #[trigger] ps.drop_last()[k]);
            assert(ps.drop_last()[k] == ps[k]);
            assert(best_run_over(slots, s, ps) == max_run_at(slots, s, ps[k]));
        }
    }
}

/// A streak's raw value is at most 50 per matched character plus 400 of
/// bonuses, and never negative.
pub proof fn lemma_streak_score_bounds(s: int, len: int, n: int, leaf: bool)
    requires
        0 <= s,
        1 <= len,
        s + len <= n,
    ensures
        0 <= spec_streak_score(s, len, n, leaf),
        spec_streak_score(s, len, n, leaf) <= 50 * len + 400,
{
    let bonus = (if leaf {
        100int
    } else {
        0int
    }) * n;
    let num = 200 * len + 100 * (s + len) + bonus;
    assert(num <= 400 * n);
    vstd::arithmetic::div_mod::lemma_div_is_ordered(num, 400 * n, n);
    vstd::arithmetic::div_mod::lemma_div_by_multiple(400, n);
    vstd::arithmetic::div_mod::lemma_div_pos_is_pos(num, n);
}

/// The best anchored streak value from `s0` on is zero or attained by an
/// actual streak.
pub proof fn lemma_highest_from_attained(slots: Slots, s0: int, n: int, leaf: bool, m: int)
    requires
        wf_slots(slots, m),
    ensures
        highest_from(slots, s0, n, leaf) == 0 || exists|s: int, q: int, len: int|
            #[trigger] is_streak(slots, s, q, len) && highest_from(slots, s0, n, leaf)
                == spec_streak_score(s, len, n, leaf),
    decreases slots.len() - s0,
{
    if s0 < 0 || s0 >= slots.len() {
    } else {
        lemma_highest_from_attained(slots, s0 + 1, n, leaf, m);
        let rest = highest_from(slots, s0 + 1, n, leaf);
        let here = best_at(slots, s0, n, leaf);
        if here > rest {
            match slots[s0] {
                None => {
                    assert(here == 0);
                },
                Some(ps) => {
                    assert(wf_slot(slots[s0], m));
                    lemma_best_run_over_attained(slots, s0, ps);
                    let k = choose|k: int|
                        0 <= k < ps.len() && best_run_over(slots, s0, ps) == max_run_at(
                            slots,
                            s0,
                            #[trigger] ps[k],
                        );
                    let q = ps[k];
                    assert(ps.contains(q));
                    assert(slot_has(slots, s0, q));
                    lemma_max_run_is_streak(slots, s0, q);
                    assert(is_streak(slots, s0, q, best_run_over(slots, s0, ps)));
                },
            }
        }
    }
}

/// Every streak among well-formed slots has its start inside the candidate,
/// its pattern positions inside the pattern, and so a bounded length.
/// No streak outruns the maximal run from its own start.
pub proof fn lemma_streak_le_max_run(slots: Slots, s: int, q: int, len: int)
    requires
        is_streak(slots, s, q, len),
    ensures
        len <= max_run_at(slots, s, q),
    decreases len,
{
    assert(slot_has(slots, s + 0, q + 0));
    if len >= 2 {
        assert forall|k: int| 0 <= k < len - 1 implies #[trigger] slot_has(
            slots,
            (s + 1) + k,
            (q + 1) + k,
        ) by {
            assert(slot_has(slots, s + (k + 1), q + (k + 1)));
        }
        lemma_streak_le_max_run(slots, s + 1, q + 1, len - 1);
    } else {
        lemma_max_run_at_bounds(slots, s + 1, q + 1);
    }
}

/// The raw streak value grows with the run length.
pub proof fn lemma_streak_score_mono(s: int, l1: int, l2: int, n: int, leaf: bool)
    requires
        0 <= s,
        1 <= l1 <= l2,
        s + l2 <= n,
    ensures
        spec_streak_score(s, l1, n, leaf) <= spec_streak_score(s, l2, n, leaf),
{
    let bonus = (if leaf {
        100int
    } else {
        0int
    }) * n;
    vstd::arithmetic::div_mod::lemma_div_is_ordered(
        200 * l1 + 100 * (s + l1) + bonus,
        200 * l2 + 100 * (s + l2) + bonus,
        n,
    );
}

/// The best run anchored at `s` is at least the maximal run from any of the
/// slot's positions.
pub proof fn lemma_best_run_over_ge(slots: Slots, s: int, ps: Seq<int>, k: int)
    requires
        0 <= k < ps.len(),
    ensures
        max_run_at(slots, s, ps[k]) <= best_run_over(slots, s, ps),
    decreases ps.len(),
{
    if k == ps.len() - 1 {
    } else {
        lemma_best_run_over_ge(slots, s, ps.drop_last(), k);
        assert(ps.drop_last()[k] == ps[k]);
    }
}

/// The best value from `s0` on is at least the best value anchored at any
/// single position from `s0` on.
pub proof fn lemma_highest_from_ge_best_at(slots: Slots, s0: int, s: int, n: int, leaf: bool)
    requires
        0 <= s0 <= s < slots.len(),
    ensures
        best_at(slots, s, n, leaf) <= highest_from(slots, s0, n, leaf),
    decreases s - s0,
{
    if s0 < s {
        lemma_highest_from_ge_best_at(slots, s0 + 1, s, n, leaf);
    }
}

/// The maximizer's value is an upper bound: no streak among the slots scores
/// above `highest_from`.
pub proof fn lemma_highest_from_is_max(slots: Slots, s: int, q: int, len: int, leaf: bool)
    requires
        is_streak(slots, s, q, len),
    ensures
        spec_streak_score(s, len, slots.len() as int, leaf) <= highest_from(
            slots,
            0,
            slots.len() as int,
            leaf,
        ),
{
    let n = slots.len() as int;
    assert(slot_has(slots, s + 0, q + 0));
    let ps = slots[s]->Some_0;
    let k = choose|k: int| 0 <= k < ps.len() && ps[k] == q;
    lemma_streak_le_max_run(slots, s, q, len);
    lemma_best_run_over_ge(slots, s, ps, k);
    lemma_best_run_over_attained(slots, s, ps);
    let ka = choose|ka: int|
        0 <= ka < ps.len() && best_run_over(slots, s, ps) == max_run_at(slots, s, #[trigger] ps[ka]);
    lemma_max_run_at_bounds(slots, s, ps[ka]);
    assert(s + best_run_over(slots, s, ps) <= n);
    lemma_streak_score_mono(s, len, best_run_over(slots, s, ps), n, leaf);
    assert(best_at(slots, s, n, leaf) == spec_streak_score(s, best_run_over(slots, s, ps), n, leaf));
    lemma_highest_from_ge_best_at(slots, 0, s, n, leaf);
}

pub proof fn lemma_streak_bounds(slots: Slots, s: int, q: int, len: int, m: int)
    requires
        wf_slots(slots, m),
        is_streak(slots, s, q, len),
    ensures
        0 <= s,
        s + len <= slots.len(),
        0 <= q,
        q + len <= m,
        len <= m,
{
    assert(slot_has(slots, s + 0, q + 0));
    assert(slot_has(slots, s + (len - 1), q + (len - 1)));
    assert(wf_slot(slots[s], m));
    assert(wf_slot(slots[s + (len - 1)], m));
    let ps0 = slots[s]->Some_0;
    assert(ps0.contains(q));
    let k0 = choose|k: int| 0 <= k < ps0.len() && ps0[k] == q;
    let ps1 = slots[s + (len - 1)]->Some_0;
    assert(ps1.contains(q + (len - 1)));
    let k1 = choose|k: int| 0 <= k < ps1.len() && ps1[k] == q + (len - 1);
    assert(0 <= ps0[k0] && ps1[k1] < m);
}

/// A strictly increasing sequence is monotone over any index gap.
pub proof fn lemma_inc_mono(w: Seq<int>, a: int, b: int)
    requires
        strictly_inc(w),
        0 <= a < b < w.len(),
    ensures
        w[a] < w[b],
    decreases b - a,
{
    if a + 1 < b {
        lemma_inc_mono(w, a, b - 1);
    }
}

/// The forward scan for pattern position `i`, started at or before the
/// witness position `w[i]`, empties no witness slot and leaves the bound at
/// or before `w[i] + 1`: a slot it empties lies strictly between two witness
/// positions and can serve only pattern positions the pass has not reached.
pub proof fn lemma_fwd_scan_witness(slots: Slots, i: int, ti: int, b: int, w: Seq<int>)
    requires
        witness_in(slots, w),
        strictly_inc(w),
        0 <= i < w.len(),
        0 <= ti <= w[i],
    ensures
        witness_in(fwd_scan(slots, i, ti, b).0, w),
        1 <= fwd_scan(slots, i, ti, b).1 <= w[i] + 1,
        fwd_scan(slots, i, ti, b).0.len() == slots.len(),
    decreases w[i] - ti,
{
    assert(slot_has(slots, w[i], i));
    match slots[ti] {
        None => {
            assert(ti != w[i]);
            lemma_fwd_scan_witness(slots, i, ti + 1, b, w);
        },
        Some(ps) => {
            if ps.contains(i) {
            } else {
                assert(ti != w[i]);
                if slot_all_above(ps, i) {
                    let upd = slots.update(ti, None);
                    assert forall|k: int| 0 <= k < w.len() implies #[trigger] slot_has(
                        upd,
                        w[k],
                        k,
                    ) by {
                        assert(slot_has(slots, w[k], k));
                        if w[k] == ti {
                            assert(ps.contains(k));
                            assert(k > i);
                            lemma_inc_mono(w, i, k);
                            assert(false);
                        }
                    }
                    lemma_fwd_scan_witness(upd, i, ti + 1, b, w);
                } else {
                    lemma_fwd_scan_witness(slots, i, ti + 1, b, w);
                }
            }
        },
    }
}

/// The forward pass empties no witness slot: by induction, each pattern
/// position's scan starts at or before its own witness position.
pub proof fn lemma_fwd_pass_witness(slots: Slots, i: int, b: int, m: int, w: Seq<int>)
    requires
        witness_in(slots, w),
        strictly_inc(w),
        w.len() == m,
        0 <= i,
        0 <= b,
        i < m ==> b <= w[i],
    ensures
        witness_in(fwd_pass(slots, i, b, m).0, w),
        fwd_pass(slots, i, b, m).0.len() == slots.len(),
    decreases m - i,
{
    if i >= m {
    } else {
        let r = fwd_scan(slots, i, b, b);
        lemma_fwd_scan_witness(slots, i, b, b, w);
        lemma_fwd_pass_witness(r.0, i + 1, r.1, m, w);
    }
}

/// The backward scan for pattern position `i`, started at or after the
/// witness position `w[i]`, empties no witness slot and leaves the bound at
/// or after `w[i]`.
pub proof fn lemma_bwd_scan_witness(slots: Slots, i: int, ti: int, b: int, w: Seq<int>)
    requires
        witness_in(slots, w),
        strictly_inc(w),
        0 <= i < w.len(),
        w[i] <= ti < slots.len(),
    ensures
        witness_in(bwd_scan(slots, i, ti, b).0, w),
        w[i] <= bwd_scan(slots, i, ti, b).1 <= ti,
        bwd_scan(slots, i, ti, b).0.len() == slots.len(),
    decreases ti - w[i],
{
    assert(slot_has(slots, w[i], i));
    match slots[ti] {
        None => {
            assert(ti != w[i]);
            lemma_bwd_scan_witness(slots, i, ti - 1, b, w);
        },
        Some(ps) => {
            if ps.contains(i) {
            } else {
                assert(ti != w[i]);
                if slot_all_below(ps, i) {
                    let upd = slots.update(ti, None);
                    assert forall|k: int| 0 <= k < w.len() implies #[trigger] slot_has(
                        upd,
                        w[k],
                        k,
                    ) by {
                        assert(slot_has(slots, w[k], k));
                        if w[k] == ti {
                            assert(ps.contains(k));
                            assert(k < i);
                            lemma_inc_mono(w, k, i);
                            assert(false);
                        }
                    }
                    lemma_bwd_scan_witness(upd, i, ti - 1, b, w);
                } else {
                    lemma_bwd_scan_witness(slots, i, ti - 1, b, w);
                }
            }
        },
    }
}

/// The backward pass empties no witness slot.
pub proof fn lemma_bwd_pass_witness(slots: Slots, i: int, b: int, w: Seq<int>)
    requires
        witness_in(slots, w),
        strictly_inc(w),
        i < w.len(),
        b <= slots.len(),
        i >= 0 ==> w[i] <= b - 1,
    ensures
        witness_in(bwd_pass(slots, i, b).0, w),
        bwd_pass(slots, i, b).0.len() == slots.len(),
    decreases i + 1,
{
    if i < 0 {
    } else {
        let r = bwd_scan(slots, i, b - 1, b);
        lemma_bwd_scan_witness(slots, i, b - 1, b, w);
        if i >= 1 {
            assert(w[i - 1] < w[i]);
        }
        lemma_bwd_pass_witness(r.0, i - 1, r.1, w);
    }
}

/// A pattern that embeds into the candidate leaves at least one slot alive
/// after both pruning passes: pruning never empties a witness slot.
pub proof fn lemma_match_survives_pruning(p: Seq<char>, t: Seq<char>)
    requires
        p.len() > 0,
        is_fold_subseq(p, t),
    ensures
        !all_none(pruned_slots(p, t)),
{
    let w = choose|w: Seq<int>| is_fold_embedding(p, t, w);
    let init = initial_slots(p, t);
    let m = p.len() as int;
    assert(slot_has(init, w[0], 0));
    lemma_fwd_pass_witness(init, 0, 0, m, w);
    let f = fwd_pass(init, 0, 0, m);
    assert(slot_has(f.0, w[m - 1], m - 1));
    lemma_bwd_pass_witness(f.0, m - 1, t.len() as int, w);
    let fin = bwd_pass(f.0, m - 1, t.len() as int).0;
    assert(slot_has(fin, w[0], 0));
    assert(!(fin[w[0]] is None));
}

/// No character occurs twice in the pattern.
pub open spec fn distinct_chars(p: Seq<char>) -> bool {
    forall|a: int, b: int| 0 <= a < b < p.len() ==> p[a] != p[b]
}

/// Every non-empty slot holds exactly one pattern position.
pub open spec fn sing_slots(slots: Slots) -> bool {
    forall|j: int|
        0 <= j < slots.len() && slots[j] is Some ==> (#[trigger] slots[j])->Some_0.len() == 1
}

pub open spec fn seq_below(w: Seq<int>, j: int) -> bool {
    forall|k: int| 0 <= k < w.len() ==> #[trigger] w[k] < j
}

pub open spec fn seq_above(w: Seq<int>, j: int) -> bool {
    forall|k: int| 0 <= k < w.len() ==> #[trigger] w[k] > j
}

/// Position `w[k]` carries pattern position `base + k`, for every `k`.
pub open spec fn witness_from(slots: Slots, w: Seq<int>, base: int) -> bool {
    forall|k: int| 0 <= k < w.len() ==> slot_has(slots, #[trigger] w[k], base + k)
}

/// Pattern positions `0 .. v` embed, in order, strictly below candidate
/// position `j`.
pub open spec fn chain_below(s0: Slots, v: int, j: int) -> bool {
    exists|w: Seq<int>|
        w.len() == v && strictly_inc(w) && witness_in(s0, w) && seq_below(w, j)
}

/// Pattern positions `v + 1 .. m` embed, in order, strictly above candidate
/// position `j`.
pub open spec fn chain_above(s0: Slots, v: int, j: int, m: int) -> bool {
    exists|w: Seq<int>|
        w.len() == m - 1 - v && strictly_inc(w) && witness_from(s0, w, v + 1) && seq_above(w, j)
}

/// With a pattern of pairwise distinct characters, every slot is a singleton.
pub proof fn lemma_distinct_chars_singleton(p: Seq<char>, t: Seq<char>)
    requires
        distinct_chars(p),
    ensures
        sing_slots(initial_slots(p, t)),
{
    assert forall|j: int|
        0 <= j < initial_slots(p, t).len() && initial_slots(p, t)[j] is Some implies (
    #[trigger] initial_slots(p, t)[j])->Some_0.len() == 1 by {
        lemma_positions_of_props(p, t[j]);
        lemma_positions_of_props(p, lower_first_of(t[j]));
        let ps = initial_slots(p, t)[j]->Some_0;
        if ps.len() >= 2 {
            assert(ps[0] != ps[1]);
            assert(ps.contains(ps[0]) && ps.contains(ps[1]));
            assert(false);
        }
        if ps.len() == 0 {
            assert(false);
        }
    }
}

pub proof fn lemma_chain_below_weaken(s0: Slots, v: int, j1: int, j2: int)
    requires
        chain_below(s0, v, j1),
        j1 <= j2,
    ensures
        chain_below(s0, v, j2),
{
    let w = choose|w: Seq<int>|
        w.len() == v && strictly_inc(w) && witness_in(s0, w) && seq_below(w, j1);
    assert(seq_below(w, j2));
}

pub proof fn lemma_chain_below_extend(s0: Slots, i: int, b: int, e: int)
    requires
        0 <= i,
        chain_below(s0, i, b),
        b <= e,
        slot_has(s0, e, i),
    ensures
        chain_below(s0, i + 1, e + 1),
{
    let w = choose|w: Seq<int>|
        w.len() == i && strictly_inc(w) && witness_in(s0, w) && seq_below(w, b);
    let w2 = w.push(e);
    assert(w2.len() == i + 1);
    assert(strictly_inc(w2)) by {
        assert(forall|k: int| 0 <= k < w.len() ==> w2[k] == #[trigger] w[k]);
        assert(w2[w.len() as int] == e);
    }
    assert(witness_in(s0, w2)) by {
        assert(forall|k: int| 0 <= k < w.len() ==> w2[k] == #[trigger] w[k]);
        assert(w2[i] == e);
        assert(forall|k: int| 0 <= k < w2.len() ==> #[trigger] slot_has(s0, w2[k], k));
    }
    assert(seq_below(w2, e + 1)) by {
        assert(forall|k: int| 0 <= k < w.len() ==> w2[k] == #[trigger] w[k]);
        assert(w2[i] == e);
    }
}

pub proof fn lemma_chain_above_weaken(s0: Slots, v: int, j1: int, j2: int, m: int)
    requires
        chain_above(s0, v, j1, m),
        j2 <= j1,
    ensures
        chain_above(s0, v, j2, m),
{
    let w = choose|w: Seq<int>|
        w.len() == m - 1 - v && strictly_inc(w) && witness_from(s0, w, v + 1) && seq_above(w, j1);
    assert(seq_above(w, j2));
}

pub proof fn lemma_chain_above_extend(s0: Slots, i: int, j0: int, e: int, m: int)
    requires
        chain_above(s0, i, j0, m),
        slot_has(s0, e, i),
        e <= j0,
    ensures
        chain_above(s0, i - 1, e - 1, m),
{
    let w = choose|w: Seq<int>|
        w.len() == m - 1 - i && strictly_inc(w) && witness_from(s0, w, i + 1) && seq_above(w, j0);
    let w2 = seq![e].add(w);
    assert(w2.len() == m - 1 - (i - 1));
    assert(w2[0] == e);
    assert(forall|k: int| 0 <= k < w.len() ==> w2[k + 1] == #[trigger] w[k]);
    assert(strictly_inc(w2)) by {
        assert forall|k: int| 0 <= k < w2.len() - 1 implies #[trigger] w2[k] < w2[k + 1] by {
            if k == 0 {
                if w.len() > 0 {
                    assert(w2[1] == w[0]);
                    assert(w[0] > j0);
                }
            } else {
                assert(w2[k] == w[k - 1] && w2[k + 1] == w[k]);
            }
        }
    }
    assert(witness_from(s0, w2, i)) by {
        assert forall|k: int| 0 <= k < w2.len() implies slot_has(s0, #[trigger] w2[k], i + k) by {
            if k == 0 {
            } else {
                assert(w2[k] == w[k - 1]);
                assert(slot_has(s0, w[k - 1], i + 1 + (k - 1)));
            }
        }
    }
    assert(seq_above(w2, e - 1)) by {
        assert forall|k: int| 0 <= k < w2.len() implies #[trigger] w2[k] > e - 1 by {
            if k > 0 {
                assert(w2[k] == w[k - 1]);
                assert(w[k - 1] > j0);
            }
        }
    }
}

/// The forward scan for `i` found a serving slot at `e`: the bound moved past
/// `e`, slots outside the scanned stretch are untouched, and every slot
/// surviving inside the scanned stretch serves only earlier pattern
/// positions.
pub open spec fn fwd_scan_found_at(slots: Slots, i: int, ti: int, r: (Slots, int), e: int) -> bool {
    &&& ti <= e < slots.len()
    &&& slot_has(slots, e, i)
    &&& r.1 == e + 1
    &&& forall|j: int| 0 <= j < slots.len() && !(ti <= j < e) ==> #[trigger] r.0[j] == slots[j]
    &&& forall|j: int, v: int| ti <= j < e && #[trigger] slot_has(r.0, j, v) ==> v < i
}

/// The forward scan for `i` found no serving slot: the bound is unchanged and
/// every slot surviving from `ti` on serves only earlier pattern positions.
pub open spec fn fwd_scan_notfound(slots: Slots, i: int, ti: int, b: int, r: (Slots, int)) -> bool {
    &&& r.1 == b
    &&& forall|j: int| 0 <= j < ti ==> #[trigger] r.0[j] == slots[j]
    &&& forall|j: int, v: int| ti <= j < slots.len() && #[trigger] slot_has(r.0, j, v) ==> v < i
}

/// On singleton slots, the forward scan either finds the first slot serving
/// `i` or proves that none remains.
pub proof fn lemma_fwd_scan_analysis(slots: Slots, i: int, ti: int, b: int)
    requires
        sing_slots(slots),
        0 <= ti,
    ensures
        fwd_scan_notfound(slots, i, ti, b, fwd_scan(slots, i, ti, b)) || exists|e: int|
            fwd_scan_found_at(slots, i, ti, fwd_scan(slots, i, ti, b), e),
    decreases slots.len() - ti,
{
    let r = fwd_scan(slots, i, ti, b);
    if ti >= slots.len() {
        assert(fwd_scan_notfound(slots, i, ti, b, r));
    } else {
        match slots[ti] {
            None => {
                lemma_fwd_scan_analysis(slots, i, ti + 1, b);
                let tnext = ti + 1;
                if fwd_scan_notfound(slots, i, tnext, b, r) {
                    assert forall|j: int, v: int|
                        ti <= j < slots.len() && #[trigger] slot_has(r.0, j, v) implies v < i by {
                        if j == ti {
                            assert(r.0[ti] == slots[ti]);
                        }
                    }
                    assert(fwd_scan_notfound(slots, i, ti, b, r));
                } else {
                    let e = choose|e: int| fwd_scan_found_at(slots, i, tnext, r, e);
                    assert forall|j: int, v: int|
                        ti <= j < e && #[trigger] slot_has(r.0, j, v) implies v < i by {
                        if j == ti {
                            assert(r.0[ti] == slots[ti]);
                        }
                    }
                    assert(fwd_scan_found_at(slots, i, ti, r, e));
                }
            },
            Some(ps) => {
                if ps.contains(i) {
                    assert(fwd_scan_found_at(slots, i, ti, r, ti));
                } else if slot_all_above(ps, i) {
                    let upd = slots.update(ti, None);
                    assert(sing_slots(upd));
                    lemma_fwd_scan_analysis(upd, i, ti + 1, b);
                    let tnext = ti + 1;
                    if fwd_scan_notfound(upd, i, tnext, b, r) {
                        assert forall|j: int, v: int|
                            ti <= j < slots.len() && #[trigger] slot_has(r.0, j, v) implies v
                            < i by {
                            if j == ti {
                                assert(r.0[ti] == upd[ti]);
                            }
                        }
                        assert(fwd_scan_notfound(slots, i, ti, b, r));
                    } else {
                        let e = choose|e: int| fwd_scan_found_at(upd, i, tnext, r, e);
                        assert(upd[e] == slots[e]);
                        assert forall|j: int, v: int|
                            ti <= j < e && #[trigger] slot_has(r.0, j, v) implies v < i by {
                            if j == ti {
                                assert(r.0[ti] == upd[ti]);
                            }
                        }
                        assert forall|j: int|
                            0 <= j < slots.len() && !(ti <= j < e) implies #[trigger] r.0[j]
                            == slots[j] by {
                            assert(r.0[j] == upd[j]);
                        }
                        assert(fwd_scan_found_at(slots, i, ti, r, e));
                    }
                } else {
                    assert(ps.len() == 1);
                    assert(ps.contains(ps[0]));
                    assert(ps[0] < i) by {
                        assert(!slot_all_above(ps, i));
                        assert(ps[0] != i);
                    }
                    lemma_fwd_scan_analysis(slots, i, ti + 1, b);
                    let tnext = ti + 1;
                    if fwd_scan_notfound(slots, i, tnext, b, r) {
                        assert forall|j: int, v: int|
                            ti <= j < slots.len() && #[trigger] slot_has(r.0, j, v) implies v
                            < i by {
                            if j == ti {
                                assert(r.0[ti] == slots[ti]);
                                assert(v == ps[0]);
                            }
                        }
                        assert(fwd_scan_notfound(slots, i, ti, b, r));
                    } else {
                        let e = choose|e: int| fwd_scan_found_at(slots, i, tnext, r, e);
                        assert forall|j: int, v: int|
                            ti <= j < e && #[trigger] slot_has(r.0, j, v) implies v < i by {
                            if j == ti {
                                assert(r.0[ti] == slots[ti]);
                                assert(v == ps[0]);
                            }
                        }
                        assert(fwd_scan_found_at(slots, i, ti, r, e));
                    }
                }
            },
        }
    }
}

/// Invariant of the forward pass at state `(slots, i, b)`: every surviving
/// slot serving a pattern position already processed has a prefix chain
/// strictly below it; every one serving a position not yet reached lies at or
/// beyond the bound, and the processed prefix embeds strictly below the
/// bound.
pub open spec fn fwd_inv_at(s0: Slots, i: int, b: int, j: int, v: int) -> bool {
    if v < i {
        chain_below(s0, v, j)
    } else {
        j >= b && chain_below(s0, i, b)
    }
}

/// Running the forward pass from a state satisfying its invariant leaves
/// every surviving slot with a prefix chain strictly below it.
pub proof fn lemma_fwd_pass_chains(s0: Slots, slots: Slots, i: int, b: int, m: int)
    requires
        sing_slots(slots),
        narrowed(s0, slots),
        0 <= i <= m,
        0 <= b <= slots.len(),
        forall|j: int, v: int| #[trigger] slot_has(slots, j, v) ==> fwd_inv_at(s0, i, b, j, v),
        forall|j: int, v: int| #[trigger] slot_has(slots, j, v) ==> v < m,
    ensures
        forall|j: int, v: int|
            #[trigger] slot_has(fwd_pass(slots, i, b, m).0, j, v) ==> chain_below(s0, v, j),
    decreases m - i,
{
    if i >= m {
        assert forall|j: int, v: int|
            #[trigger] slot_has(fwd_pass(slots, i, b, m).0, j, v) implies chain_below(
            s0,
            v,
            j,
        ) by {
            assert(slot_has(slots, j, v));
            assert(v < m);
        }
    } else {
        let r = fwd_scan(slots, i, b, b);
        lemma_fwd_scan_analysis(slots, i, b, b);
        lemma_fwd_scan_narrows(slots, i, b, b);
        assert(sing_slots(r.0));
        assert(narrowed(s0, r.0));
        assert forall|j: int, v: int| #[trigger] slot_has(r.0, j, v) implies slot_has(
            slots,
            j,
            v,
        ) && v < m by {
            assert(r.0[j] == slots[j] || r.0[j] is None);
        }
        if fwd_scan_notfound(slots, i, b, b, r) {
            assert forall|j: int, v: int| #[trigger] slot_has(r.0, j, v) implies fwd_inv_at(
                s0,
                i + 1,
                r.1,
                j,
                v,
            ) by {
                assert(slot_has(slots, j, v));
                if j < b {
                    assert(r.0[j] == slots[j]);
                    assert(fwd_inv_at(s0, i, b, j, v));
                    assert(v < i);
                } else {
                    assert(v < i);
                }
            }
            lemma_fwd_pass_chains(s0, r.0, i + 1, r.1, m);
            assert(fwd_pass(slots, i, b, m) == fwd_pass(r.0, i + 1, r.1, m));
        } else {
            let e = choose|e: int| fwd_scan_found_at(slots, i, b, r, e);
            assert(slot_has(slots, e, i));
            assert(fwd_inv_at(s0, i, b, e, i));
            assert(chain_below(s0, i, b));
            assert(slot_has(s0, e, i)) by {
                assert(slots[e] == s0[e] || slots[e] is None);
            }
            lemma_chain_below_extend(s0, i, b, e);
            assert forall|j: int, v: int| #[trigger] slot_has(r.0, j, v) implies fwd_inv_at(
                s0,
                i + 1,
                r.1,
                j,
                v,
            ) by {
                assert(slot_has(slots, j, v));
                assert(fwd_inv_at(s0, i, b, j, v));
                if v < i {
                    assert(chain_below(s0, v, j));
                } else if v == i {
                    assert(j >= b);
                    if b <= j < e {
                        assert(false);
                    }
                    assert(j >= e);
                    lemma_chain_below_weaken(s0, i, b, j);
                } else {
                    assert(j >= b);
                    if b <= j < e {
                        assert(false);
                    }
                    if j == e {
                        assert(v == i) by {
                            let ps = slots[e]->Some_0;
                            assert(ps.len() == 1);
                            assert(v == ps[0] && i == ps[0]);
                        }
                        assert(false);
                    }
                    assert(j >= e + 1);
                }
            }
            assert(0 <= r.1 <= slots.len());
            lemma_fwd_pass_chains(s0, r.0, i + 1, r.1, m);
            assert(fwd_pass(slots, i, b, m) == fwd_pass(r.0, i + 1, r.1, m));
        }
    }
}

/// The backward scan for `i` found a serving slot at `e`: the bound moved to
/// `e`, slots outside the scanned stretch are untouched, and every slot
/// surviving inside the scanned stretch serves only later pattern positions.
pub open spec fn bwd_scan_found_at(slots: Slots, i: int, ti: int, r: (Slots, int), e: int) -> bool {
    &&& 0 <= e <= ti
    &&& e < slots.len()
    &&& slot_has(slots, e, i)
    &&& r.1 == e
    &&& forall|j: int| 0 <= j < slots.len() && !(e < j <= ti) ==> #[trigger] r.0[j] == slots[j]
    &&& forall|j: int, v: int| e < j <= ti && #[trigger] slot_has(r.0, j, v) ==> v > i
}

/// The backward scan for `i` found no serving slot: the bound is unchanged
/// and every slot surviving at or below `ti` serves only later pattern
/// positions.
pub open spec fn bwd_scan_notfound(slots: Slots, i: int, ti: int, b: int, r: (Slots, int)) -> bool {
    &&& r.1 == b
    &&& forall|j: int| ti < j < slots.len() ==> #[trigger] r.0[j] == slots[j]
    &&& forall|j: int, v: int| 0 <= j <= ti && #[trigger] slot_has(r.0, j, v) ==> v > i
}

/// On singleton slots, the backward scan either finds the last slot serving
/// `i` or proves that none remains.
pub proof fn lemma_bwd_scan_analysis(slots: Slots, i: int, ti: int, b: int)
    requires
        sing_slots(slots),
        ti < slots.len(),
    ensures
        bwd_scan_notfound(slots, i, ti, b, bwd_scan(slots, i, ti, b)) || exists|e: int|
            bwd_scan_found_at(slots, i, ti, bwd_scan(slots, i, ti, b), e),
    decreases ti + 1,
{
    let r = bwd_scan(slots, i, ti, b);
    if ti < 0 {
        assert(bwd_scan_notfound(slots, i, ti, b, r));
    } else {
        match slots[ti] {
            None => {
                lemma_bwd_scan_analysis(slots, i, ti - 1, b);
                let tnext = ti - 1;
                if bwd_scan_notfound(slots, i, tnext, b, r) {
                    assert forall|j: int, v: int|
                        0 <= j <= ti && #[trigger] slot_has(r.0, j, v) implies v > i by {
                        if j == ti {
                            assert(r.0[ti] == slots[ti]);
                        }
                    }
                    assert(bwd_scan_notfound(slots, i, ti, b, r));
                } else {
                    let e = choose|e: int| bwd_scan_found_at(slots, i, tnext, r, e);
                    assert forall|j: int, v: int|
                        e < j <= ti && #[trigger] slot_has(r.0, j, v) implies v > i by {
                        if j == ti {
                            assert(r.0[ti] == slots[ti]);
                        }
                    }
                    assert(bwd_scan_found_at(slots, i, ti, r, e));
                }
            },
            Some(ps) => {
                if ps.contains(i) {
                    assert(bwd_scan_found_at(slots, i, ti, r, ti));
                } else if slot_all_below(ps, i) {
                    let upd = slots.update(ti, None);
                    assert(sing_slots(upd));
                    lemma_bwd_scan_analysis(upd, i, ti - 1, b);
                    let tnext = ti - 1;
                    if bwd_scan_notfound(upd, i, tnext, b, r) {
                        assert forall|j: int, v: int|
                            0 <= j <= ti && #[trigger] slot_has(r.0, j, v) implies v > i by {
                            if j == ti {
                                assert(r.0[ti] == upd[ti]);
                            }
                        }
                        assert forall|j: int| ti < j < slots.len() implies #[trigger] r.0[j]
                            == slots[j] by {
                            assert(r.0[j] == upd[j]);
                        }
                        assert(bwd_scan_notfound(slots, i, ti, b, r));
                    } else {
                        let e = choose|e: int| bwd_scan_found_at(upd, i, tnext, r, e);
                        assert(upd[e] == slots[e]);
                        assert forall|j: int, v: int|
                            e < j <= ti && #[trigger] slot_has(r.0, j, v) implies v > i by {
                            if j == ti {
                                assert(r.0[ti] == upd[ti]);
                            }
                        }
                        assert forall|j: int|
                            0 <= j < slots.len() && !(e < j <= ti) implies #[trigger] r.0[j]
                            == slots[j] by {
                            assert(r.0[j] == upd[j]);
                        }
                        assert(bwd_scan_found_at(slots, i, ti, r, e));
                    }
                } else {
                    assert(ps.len() == 1);
                    assert(ps.contains(ps[0]));
                    assert(ps[0] > i) by {
                        assert(!slot_all_below(ps, i));
                        assert(ps[0] != i);
                    }
                    lemma_bwd_scan_analysis(slots, i, ti - 1, b);
                    let tnext = ti - 1;
                    if bwd_scan_notfound(slots, i, tnext, b, r) {
                        assert forall|j: int, v: int|
                            0 <= j <= ti && #[trigger] slot_has(r.0, j, v) implies v > i by {
                            if j == ti {
                                assert(r.0[ti] == slots[ti]);
                                assert(v == ps[0]);
                            }
                        }
                        assert(bwd_scan_notfound(slots, i, ti, b, r));
                    } else {
                        let e = choose|e: int| bwd_scan_found_at(slots, i, tnext, r, e);
                        assert forall|j: int, v: int|
                            e < j <= ti && #[trigger] slot_has(r.0, j, v) implies v > i by {
                            if j == ti {
                                assert(r.0[ti] == slots[ti]);
                                assert(v == ps[0]);
                            }
                        }
                        assert(bwd_scan_found_at(slots, i, ti, r, e));
                    }
                }
            },
        }
    }
}

/// Invariant of the backward pass at state `(slots, i, b)`: every surviving
/// slot serving a pattern position already processed has a suffix chain
/// strictly above it; every one serving a position not yet reached lies below
/// the bound, and the processed suffix embeds strictly above the bound.
pub open spec fn bwd_inv_at(s0: Slots, i: int, b: int, j: int, v: int, m: int) -> bool {
    if v > i {
        chain_above(s0, v, j, m)
    } else {
        j < b && chain_above(s0, i, b - 1, m)
    }
}

/// Running the backward pass from a state satisfying its invariant leaves
/// every surviving slot with a suffix chain strictly above it.
pub proof fn lemma_bwd_pass_chains(s0: Slots, slots: Slots, i: int, b: int, m: int)
    requires
        sing_slots(slots),
        narrowed(s0, slots),
        i < m,
        0 <= b <= slots.len(),
        forall|j: int, v: int| #[trigger] slot_has(slots, j, v) ==> bwd_inv_at(s0, i, b, j, v, m),
        forall|j: int, v: int| #[trigger] slot_has(slots, j, v) ==> 0 <= v,
    ensures
        forall|j: int, v: int|
            #[trigger] slot_has(bwd_pass(slots, i, b).0, j, v) ==> chain_above(s0, v, j, m),
    decreases i + 1,
{
    if i < 0 {
        assert forall|j: int, v: int|
            #[trigger] slot_has(bwd_pass(slots, i, b).0, j, v) implies chain_above(
            s0,
            v,
            j,
            m,
        ) by {
            assert(slot_has(slots, j, v));
            assert(v >= 0);
        }
    } else {
        let bprev = b - 1;
        let r = bwd_scan(slots, i, bprev, b);
        lemma_bwd_scan_analysis(slots, i, bprev, b);
        lemma_bwd_scan_narrows(slots, i, bprev, b);
        assert(sing_slots(r.0));
        assert(narrowed(s0, r.0));
        assert forall|j: int, v: int| #[trigger] slot_has(r.0, j, v) implies slot_has(
            slots,
            j,
            v,
        ) && 0 <= v by {
            assert(r.0[j] == slots[j] || r.0[j] is None);
        }
        if bwd_scan_notfound(slots, i, bprev, b, r) {
            assert forall|j: int, v: int| #[trigger] slot_has(r.0, j, v) implies bwd_inv_at(
                s0,
                i - 1,
                r.1,
                j,
                v,
                m,
            ) by {
                assert(slot_has(slots, j, v));
                if j > b - 1 {
                    assert(r.0[j] == slots[j]);
                    assert(bwd_inv_at(s0, i, b, j, v, m));
                    assert(v > i);
                } else {
                    assert(v > i);
                }
            }
            lemma_bwd_pass_chains(s0, r.0, i - 1, r.1, m);
            assert(bwd_pass(slots, i, b) == bwd_pass(r.0, i - 1, r.1));
        } else {
            let e = choose|e: int| bwd_scan_found_at(slots, i, bprev, r, e);
            assert(slot_has(slots, e, i));
            assert(bwd_inv_at(s0, i, b, e, i, m));
            assert(chain_above(s0, i, b - 1, m));
            assert(slot_has(s0, e, i)) by {
                assert(slots[e] == s0[e] || slots[e] is None);
            }
            lemma_chain_above_extend(s0, i, b - 1, e, m);
            assert forall|j: int, v: int| #[trigger] slot_has(r.0, j, v) implies bwd_inv_at(
                s0,
                i - 1,
                r.1,
                j,
                v,
                m,
            ) by {
                assert(slot_has(slots, j, v));
                assert(bwd_inv_at(s0, i, b, j, v, m));
                if v > i {
                    assert(chain_above(s0, v, j, m));
                } else if v == i {
                    assert(j < b);
                    if e < j <= b - 1 {
                        assert(false);
                    }
                    assert(j <= e);
                    lemma_chain_above_weaken(s0, i, b - 1, j, m);
                } else {
                    assert(j < b);
                    if e < j <= b - 1 {
                        assert(false);
                    }
                    if j == e {
                        assert(v == i) by {
                            let ps = slots[e]->Some_0;
                            assert(ps.len() == 1);
                            assert(v == ps[0] && i == ps[0]);
                        }
                        assert(false);
                    }
                    assert(j < e);
                }
            }
            assert(0 <= r.1 <= slots.len());
            lemma_bwd_pass_chains(s0, r.0, i - 1, r.1, m);
            assert(bwd_pass(slots, i, b) == bwd_pass(r.0, i - 1, r.1));
        }
    }
}

/// A prefix chain below `j`, the slot at `j` itself, and a suffix chain above
/// `j` splice into a full embedding of the pattern.
pub proof fn lemma_chains_make_embedding(p: Seq<char>, t: Seq<char>, j: int, v: int)
    requires
        0 <= v < p.len(),
        slot_has(initial_slots(p, t), j, v),
        chain_below(initial_slots(p, t), v, j),
        chain_above(initial_slots(p, t), v, j, p.len() as int),
    ensures
        is_fold_subseq(p, t),
{
    let s0 = initial_slots(p, t);
    let m = p.len() as int;
    let wb = choose|w: Seq<int>|
        w.len() == v && strictly_inc(w) && witness_in(s0, w) && seq_below(w, j);
    let wa = choose|w: Seq<int>|
        w.len() == m - 1 - v && strictly_inc(w) && witness_from(s0, w, v + 1) && seq_above(w, j);
    let w2 = wb.push(j).add(wa);
    assert(w2.len() == m);
    assert(forall|k: int| 0 <= k < v ==> w2[k] == #[trigger] wb[k]);
    assert(w2[v] == j);
    assert(forall|k: int| v < k < m ==> w2[k] == #[trigger] wa[k - v - 1]);
    assert(strictly_inc(w2)) by {
        assert forall|k: int| 0 <= k < w2.len() - 1 implies #[trigger] w2[k] < w2[k + 1] by {
            if k < v - 1 {
                assert(w2[k] == wb[k] && w2[k + 1] == wb[k + 1]);
            } else if k == v - 1 {
                assert(w2[k] == wb[k] && w2[k + 1] == j);
                assert(wb[k] < j);
            } else if k == v {
                assert(w2[k + 1] == wa[0]);
                assert(wa[0] > j);
            } else {
                assert(w2[k] == wa[k - v - 1] && w2[k + 1] == wa[k - v]);
            }
        }
    }
    assert(witness_in(s0, w2)) by {
        assert forall|k: int| 0 <= k < w2.len() implies #[trigger] slot_has(s0, w2[k], k) by {
            if k < v {
                assert(w2[k] == wb[k]);
                assert(slot_has(s0, wb[k], k));
            } else if k == v {
            } else {
                assert(w2[k] == wa[k - v - 1]);
                assert(slot_has(s0, wa[k - v - 1], v + 1 + (k - v - 1)));
            }
        }
    }
    assert(is_fold_embedding(p, t, w2));
}

/// With a pattern of pairwise distinct characters that does not embed into
/// the candidate, the two pruning passes empty every slot: any surviving slot
/// would carry a prefix chain below it and a suffix chain above it, which
/// would splice into an embedding.
pub proof fn lemma_no_subseq_all_pruned(p: Seq<char>, t: Seq<char>)
    requires
        distinct_chars(p),
        !is_fold_subseq(p, t),
    ensures
        all_none(pruned_slots(p, t)),
{
    let s0 = initial_slots(p, t);
    let m = p.len() as int;
    let n = t.len() as int;
    if m == 0 {
        assert(is_fold_embedding(p, t, Seq::<int>::empty()));
        assert(false);
    }
    lemma_distinct_chars_singleton(p, t);
    lemma_initial_slots_wf(p, t);

    assert forall|j: int, v: int| #[trigger] slot_has(s0, j, v) implies fwd_inv_at(s0, 0, 0, j, v)
        && v < m && 0 <= v by {
        assert(wf_slot(s0[j], m));
        let ps = s0[j]->Some_0;
        let k = choose|k: int| 0 <= k < ps.len() && ps[k] == v;
        assert(0 <= ps[k] < m);
        assert(chain_below(s0, 0, 0)) by {
            let w0 = Seq::<int>::empty();
            assert(w0.len() == 0 && strictly_inc(w0) && witness_in(s0, w0) && seq_below(w0, 0));
        }
    }
    assert(narrowed(s0, s0));
    lemma_fwd_pass_chains(s0, s0, 0, 0, m);
    lemma_fwd_pass_narrows(s0, 0, 0, m);
    let f = fwd_pass(s0, 0, 0, m).0;
    assert(sing_slots(f));

    assert forall|j: int, v: int| #[trigger] slot_has(f, j, v) implies bwd_inv_at(
        s0,
        m - 1,
        n,
        j,
        v,
        m,
    ) && 0 <= v by {
        assert(f[j] == s0[j] || f[j] is None);
        assert(slot_has(s0, j, v));
        assert(wf_slot(s0[j], m));
        let ps = s0[j]->Some_0;
        let k = choose|k: int| 0 <= k < ps.len() && ps[k] == v;
        assert(0 <= ps[k] < m);
        assert(j < n);
        assert(chain_above(s0, m - 1, n - 1, m)) by {
            let w0 = Seq::<int>::empty();
            assert(w0.len() == 0 && strictly_inc(w0) && witness_from(s0, w0, m) && seq_above(
                w0,
                n - 1,
            ));
        }
    }
    lemma_bwd_pass_chains(s0, f, m - 1, n, m);
    lemma_bwd_pass_narrows(f, m - 1, n);
    let fin = pruned_slots(p, t);
    assert(fin == bwd_pass(f, m - 1, n).0);

    assert forall|j: int| 0 <= j < fin.len() implies fin[j] is None by {
        if !(fin[j] is None) {
            assert(fin[j] == s0[j] || fin[j] is None);
            let ps = fin[j]->Some_0;
            assert(wf_slot(s0[j], m));
            let v = ps[0];
            assert(ps.contains(v));
            assert(slot_has(fin, j, v));
            assert(chain_above(s0, v, j, m));
            assert(slot_has(f, j, v)) by {
                assert(fin[j] == f[j] || fin[j] is None);
            }
            assert(chain_below(s0, v, j));
            assert(slot_has(s0, j, v));
            assert(0 <= v < m);
            lemma_chains_make_embedding(p, t, j, v);
            assert(false);
        }
    }
}

/// Every pattern embeds into itself at the identity positions.
pub proof fn lemma_self_embedding(p: Seq<char>)
    ensures
        is_fold_subseq(p, p),
{
    let w = Seq::new(p.len(), |k: int| k);
    assert forall|k: int| 0 <= k < w.len() implies #[trigger] slot_has(
        initial_slots(p, p),
        w[k],
        k,
    ) by {
        lemma_positions_of_props(p, p[k]);
        assert(positions_of(p, p[k]).contains(k));
    }
    assert(is_fold_embedding(p, p, w));
}

/// A run length is never negative and never walks past the end of the slots.
pub proof fn lemma_max_run_at_bounds(slots: Slots, pos: int, q: int)
    ensures
        0 <= max_run_at(slots, pos, q),
        max_run_at(slots, pos, q) == 0 || pos + max_run_at(slots, pos, q) <= slots.len(),
    decreases slots.len() - pos,
{
    if slot_has(slots, pos, q) {
        lemma_max_run_at_bounds(slots, pos + 1, q + 1);
    }
}

/// The best anchored streak value is never negative.
pub proof fn lemma_highest_from_nonneg(slots: Slots, s: int, n: int, leaf: bool)
    ensures
        highest_from(slots, s, n, leaf) >= 0,
    decreases slots.len() - s,
{
    if 0 <= s < slots.len() {
        lemma_highest_from_nonneg(slots, s + 1, n, leaf);
    }
}

/// The positions of `c` in `p` are exactly the indices holding `c`, strictly
/// ascending and within the pattern.
pub proof fn lemma_positions_of_props(p: Seq<char>, c: char)
    ensures
        forall|j: int| #[trigger] positions_of(p, c).contains(j) <==> 0 <= j < p.len() && p[j] == c,
        ascending(positions_of(p, c)),
        forall|k: int|
            0 <= k < positions_of(p, c).len() ==> 0 <= #[trigger] positions_of(p, c)[k] < p.len(),
    decreases p.len(),
{
    if p.len() == 0 {
        assert(forall|j: int| !(#[trigger] positions_of(p, c).contains(j)));
    } else {
        let pre = p.drop_last();
        lemma_positions_of_props(pre, c);
        assert(forall|j: int| 0 <= j < pre.len() ==> pre[j] == p[j]);
        let ps = positions_of(p, c);
        if p.last() == c {
            let qs = positions_of(pre, c);
            assert(ps == qs.push(p.len() - 1));
            assert forall|j: int| #[trigger] ps.contains(j) implies 0 <= j < p.len() && p[j] == c
                by {
                let k = choose|k: int| 0 <= k < ps.len() && ps[k] == j;
                if k < qs.len() {
                    assert(qs[k] == j);
                    assert(qs.contains(j));
                } else {
                    assert(j == p.len() - 1);
                }
            }
            assert forall|j: int| 0 <= j < p.len() && p[j] == c implies #[trigger] ps.contains(j)
                by {
                if j < p.len() - 1 {
                    assert(qs.contains(j));
                    let k = choose|k: int| 0 <= k < qs.len() && qs[k] == j;
                    assert(ps[k] == j);
                } else {
                    assert(ps[ps.len() - 1] == j);
                }
            }
        } else {
            assert(ps == positions_of(pre, c));
        }
    }
}

pub open spec fn strictly_inc(w: Seq<int>) -> bool {
    forall|k: int| 0 <= k < w.len() - 1 ==> #[trigger] w[k] < w[k + 1]
}

/// Position `w[k]` carries pattern position `k`, for every `k`.
pub open spec fn witness_in(slots: Slots, w: Seq<int>) -> bool {
    forall|k: int| 0 <= k < w.len() ==> #[trigger] slot_has(slots, w[k], k)
}

/// `w` witnesses that `p` embeds into `t` in order: strictly ascending
/// candidate positions whose initial slots carry the successive pattern
/// positions (so exact matches, or the documented case-fold fallback).
pub open spec fn is_fold_embedding(p: Seq<char>, t: Seq<char>, w: Seq<int>) -> bool {
    &&& w.len() == p.len()
    &&& strictly_inc(w)
    &&& witness_in(initial_slots(p, t), w)
}

/// `p` matches `t` as a subsequence, under the matcher's own character
/// relation (equal, or the case-fold fallback).
pub open spec fn is_fold_subseq(p: Seq<char>, t: Seq<char>) -> bool {
    exists|w: Seq<int>| is_fold_embedding(p, t, w)
}

} // verus!
