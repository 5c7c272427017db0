//! The library's laws: proved properties of [`crate::model::spec_score`],
//! which [`crate::scoring::calculate_score`] is proved to compute.

use vstd::prelude::*;

use crate::model::{
    all_none, distinct_chars, highest_from, is_fold_embedding, is_fold_subseq, is_streak,
    lemma_highest_from_attained, lemma_highest_from_is_max, lemma_highest_from_nonneg,
    lemma_match_survives_pruning, lemma_no_subseq_all_pruned, lemma_pruned_slots_wf,
    lemma_self_embedding, lemma_streak_bounds, lemma_streak_score_bounds, pruned_slots, slot_has,
    spec_leaf, spec_score, spec_streak_score, wf_slot,
};

verus! {

/// A pattern of pairwise distinct characters that is not a subsequence of the
/// candidate (not even through the case-fold fallback) gets exactly the fixed
/// worst sentinel rank. (With a repeated character the law genuinely fails:
/// against the candidate `"a"`, the pattern `"aba"` is no subsequence, yet its
/// `'a'` slot survives both pruning passes and is scored.)
pub proof fn lemma_no_match_sentinel(p: Seq<char>, t: Seq<char>)
    requires
        distinct_chars(p),
        !is_fold_subseq(p, t),
    ensures
        spec_score(p, t) == 10000,
{
    if p.len() == 0 {
        assert(is_fold_embedding(p, t, Seq::<int>::empty()));
        assert(false);
    }
    lemma_self_embedding(p);
    assert(p != t);
    lemma_no_subseq_all_pruned(p, t);
}

/// When at least one slot survives pruning, the rank is exactly the negated
/// value of a best streak: no streak among the pruned slots scores above it,
/// and some streak attains it.
pub proof fn lemma_rank_is_best_streak(p: Seq<char>, t: Seq<char>)
    requires
        p.len() > 0,
        p != t,
        !all_none(pruned_slots(p, t)),
    ensures
        forall|s: int, q: int, len: int|
            #[trigger] is_streak(pruned_slots(p, t), s, q, len) ==> spec_score(p, t)
                <= -spec_streak_score(s, len, t.len() as int, spec_leaf(t)),
        exists|s: int, q: int, len: int|
            #[trigger] is_streak(pruned_slots(p, t), s, q, len) && spec_score(p, t)
                == -spec_streak_score(s, len, t.len() as int, spec_leaf(t)),
{
    let slots = pruned_slots(p, t);
    let n = t.len() as int;
    let leaf = spec_leaf(t);
    let m = p.len() as int;
    lemma_pruned_slots_wf(p, t);
    let h = highest_from(slots, 0, n, leaf);
    assert forall|s: int, q: int, len: int|
        #[trigger] is_streak(slots, s, q, len) implies spec_score(p, t) <= -spec_streak_score(
        s,
        len,
        n,
        leaf,
    ) by {
        lemma_highest_from_is_max(slots, s, q, len, leaf);
    }
    lemma_highest_from_attained(slots, 0, n, leaf, m);
    if h == 0 {
        let j = choose|j: int| 0 <= j < slots.len() && !(slots[j] is None);
        assert(wf_slot(slots[j], m));
        let ps = slots[j]->Some_0;
        let q = ps[0];
        assert(ps.contains(q));
        assert(slot_has(slots, j + 0, q + 0));
        assert(is_streak(slots, j, q, 1));
        lemma_highest_from_is_max(slots, j, q, 1, leaf);
        vstd::arithmetic::div_mod::lemma_div_pos_is_pos(
            200 * 1 + 100 * (j + 1) + (if leaf {
                100int
            } else {
                0int
            }) * n,
            n,
        );
        assert(spec_streak_score(j, 1, n, leaf) >= 50);
        assert(false);
    }
}

/// An exact match is optimal: for a non-empty pattern of at most 191
/// characters, the pattern itself gets the best sentinel rank, strictly below
/// the rank of every other candidate that contains the pattern as a
/// subsequence. (Past 191 characters a long enough streak's raw value can
/// reach the sentinel's magnitude, and the law genuinely fails.)
pub proof fn lemma_exact_match_optimal(p: Seq<char>, t: Seq<char>)
    requires
        0 < p.len() <= 191,
        t != p,
        is_fold_subseq(p, t),
    ensures
        spec_score(p, p) == -10000,
        spec_score(p, p) < spec_score(p, t),
{
    let slots = pruned_slots(p, t);
    let n = t.len() as int;
    let m = p.len() as int;
    if all_none(slots) {
    } else {
        lemma_pruned_slots_wf(p, t);
        let leaf = spec_leaf(t);
        lemma_highest_from_attained(slots, 0, n, leaf, m);
        lemma_highest_from_nonneg(slots, 0, n, leaf);
        let h = highest_from(slots, 0, n, leaf);
        if h != 0 {
            let (s, q, len) = choose|s: int, q: int, len: int|
                #[trigger] is_streak(slots, s, q, len) && h == spec_streak_score(s, len, n, leaf);
            lemma_streak_bounds(slots, s, q, len, m);
            lemma_streak_score_bounds(s, len, n, leaf);
            assert(h <= 50 * len + 400);
            assert(h <= 50 * 191 + 400);
        }
    }
}

/// The no-match sentinel is worse than any match: a candidate that the
/// pattern does embed into (exactly, or through the case-fold fallback) ranks
/// strictly below the fixed worst sentinel `10000`, which only candidates
/// with no surviving alignment receive.
pub proof fn lemma_match_beats_sentinel(p: Seq<char>, t: Seq<char>)
    requires
        p.len() > 0,
        is_fold_subseq(p, t),
    ensures
        spec_score(p, t) < 10000,
{
    if p == t {
    } else {
        lemma_match_survives_pruning(p, t);
        lemma_highest_from_nonneg(pruned_slots(p, t), 0, t.len() as int, spec_leaf(t));
    }
}

/// With an empty query, a shorter candidate always ranks strictly before a
/// longer one.
pub proof fn lemma_empty_query_monotonic(t1: Seq<char>, t2: Seq<char>)
    requires
        t1.len() < t2.len(),
    ensures
        spec_score(Seq::empty(), t1) < spec_score(Seq::empty(), t2),
{
}

/// Holding the streak's start, its length and the candidate length equal, a
/// candidate that is a bare leaf name earns a raw value exactly 100 above one
/// that is not, so it ranks strictly better.
pub proof fn lemma_leaf_preference(s: int, len: int, n: int)
    requires
        0 <= s,
        1 <= len,
        s + len <= n,
    ensures
        spec_streak_score(s, len, n, true) == spec_streak_score(s, len, n, false) + 100,
{
    let a = 200 * len + 100 * (s + len);
    vstd::arithmetic::div_mod::lemma_fundamental_div_mod(a, n);
    vstd::arithmetic::div_mod::lemma_mod_division_less_than_divisor(a, n);
    assert(a + 100 * n == n * (a / n + 100) + a % n) by {
        vstd::arithmetic::mul::lemma_mul_is_distributive_add(n, a / n, 100);
    }
    vstd::arithmetic::div_mod::lemma_fundamental_div_mod_converse_div(
        a + 100 * n,
        n,
        a / n + 100,
        a % n,
    );
}

} // verus!
