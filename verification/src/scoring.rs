//! The streak maximizer and the score assembly.

use vstd::prelude::*;

use crate::char_match::{usv, view_slots, CharMatch};
use crate::matching::{create_matches, is_valid_match, to_char_vec};
use crate::model::{
    best_at, best_run_over, highest_from, max_len, max_run_at, slot_has, spec_leaf, spec_score,
    spec_streak_score, wf_slots,
};

verus! {

/// Raw value of a streak of `streak_len` adjacent matched characters starting
/// at candidate position `idx`, in a candidate of `text_len` characters;
/// `direct_bonus` says whether the candidate is a bare leaf name.
pub fn streak_score(idx: usize, streak_len: usize, text_len: usize, direct_bonus: bool) -> (raw:
    i64)
    requires
        1 <= streak_len,
        idx + streak_len <= text_len,
        text_len <= max_len(),
    ensures
        raw == spec_streak_score(idx as int, streak_len as int, text_len as int, direct_bonus),
        0 <= raw <= 50 * text_len + 400,
{
    let l = streak_len as u64;
    let n = text_len as u64;
    let last = (idx + streak_len) as u64;
    let leaf: u64 = if direct_bonus {
        100
    } else {
        0
    };
    let num = 200 * l + 100 * last + leaf * n;
    assert(num <= 400 * n) by {
        assert(l <= n && last <= n && leaf <= 100);
    }
    let bonus = num / n;
    assert(bonus <= 400) by {
        vstd::arithmetic::div_mod::lemma_div_is_ordered(num as int, 400 * n, n as int);
        vstd::arithmetic::div_mod::lemma_div_by_multiple(400, n as int);
    }
    let v = 50 * l + bonus;
    v as i64
}

/// Whether the candidate, after stripping one trailing path separator if
/// present, contains no path separator at all.
fn leaf_of(tv: &Vec<char>) -> (b: bool)
    ensures
        b == spec_leaf(tv@),
{
    if tv.len() > 0 && tv[tv.len() - 1] == '/' {
        proof {
            assert(tv@.drop_last() =~= tv@.take(tv@.len() - 1));
        }
        !contains_sep_upto(tv, tv.len() - 1)
    } else {
        proof {
            assert(tv@.take(tv@.len() as int) =~= tv@);
        }
        !contains_sep_upto(tv, tv.len())
    }
}

/// Whether a path separator occurs among the first `end` characters.
fn contains_sep_upto(tv: &Vec<char>, end: usize) -> (r: bool)
    requires
        end <= tv@.len(),
    ensures
        r <==> tv@.take(end as int).contains('/'),
{
    let mut k: usize = 0;
    while k < end
        invariant
            k <= end <= tv@.len(),
            forall|j: int| 0 <= j < k ==> tv@[j] != '/',
        decreases end - k,
    {
        if tv[k] == '/' {
            assert(tv@.take(end as int)[k as int] == '/');
            return true;
        }
        k += 1;
    }
    assert(forall|j: int| 0 <= j < end ==> tv@.take(end as int)[j] != '/');
    false
}

/// The best raw streak value over every branch anchored at every surviving
/// candidate position: each position of each non-empty slot starts a branch,
/// each branch is extended while the next slot carries the next pattern
/// position, and every terminated branch is scored.
pub fn highest_score(text_matches: Vec<Option<CharMatch>>, text: &str) -> (h: i64)
    requires
        wf_slots(view_slots(text_matches@), max_len()),
        text_matches@.len() <= max_len(),
    ensures
        h == highest_from(
            view_slots(text_matches@),
            0,
            text_matches@.len() as int,
            spec_leaf(text@),
        ),
        h >= 0,
{
    let ghost slots = view_slots(text_matches@);
    let ghost leaf = spec_leaf(text@);
    let n = text_matches.len();
    let tv = to_char_vec(text);
    let direct_bonus = leaf_of(&tv);

    proof {
        crate::model::lemma_highest_from_nonneg(slots, 0, n as int, leaf);
    }
    let mut highest: i64 = 0;
    let mut i: usize = 0;
    while i < n
        invariant
            i <= n,
            n == text_matches@.len(),
            n <= max_len(),
            slots == view_slots(text_matches@),
            wf_slots(slots, max_len()),
            direct_bonus == leaf,
            0 <= highest <= 50 * n + 400,
            highest_from(slots, 0, n as int, leaf) == if highest as int > highest_from(
                slots,
                i as int,
                n as int,
                leaf,
            ) {
                highest as int
            } else {
                highest_from(slots, i as int, n as int, leaf)
            },
        decreases n - i,
    {
        if let Some(cm) = &text_matches[i] {
            assert(slots[i as int] == Some(cm@));
            let mut streak_len: usize = 1;
            let mut splits = cm.split_indices();
            proof {
                assert(cm@.take(cm@.len() as int) =~= cm@);
                assert(cm@.contains(cm@.last()));
                assert(slot_has(slots, i as int, cm@.last()));
                crate::model::lemma_max_run_at_bounds(slots, i + 1, cm@.last() + 1);
                assert(max_run_at(slots, i as int, cm@.last()) >= 1);
                assert(best_run_over(slots, i as int, cm@) >= max_run_at(
                    slots,
                    i as int,
                    cm@.last(),
                ));
            }
            while splits.len() > 0
                invariant
                    i < n,
                    n == text_matches@.len(),
                    n <= max_len(),
                    slots == view_slots(text_matches@),
                    wf_slots(slots, max_len()),
                    slots[i as int] == Some(cm@),
                    splits@.len() <= cm@.len(),
                    forall|j: int|
                        0 <= j < splits@.len() ==> usv(#[trigger] splits@[j]@) == seq![cm@[j]],
                    1 <= streak_len <= n - i,
                    best_run_over(slots, i as int, cm@) == {
                        let rest = best_run_over(
                            slots,
                            i as int,
                            cm@.take(splits@.len() as int),
                        );
                        if rest > streak_len as int {
                            rest
                        } else {
                            streak_len as int
                        }
                    },
                decreases splits@.len(),
            {
                let ghost k0 = splits@.len() - 1;
                let mut st = splits.pop().unwrap();
                let ghost q = cm@[k0];
                proof {
                    assert(usv(st@) == seq![q]);
                    assert(st@.len() == 1);
                    assert(usv(st@)[0] == q);
                    assert(cm@.contains(q));
                    assert(slot_has(slots, i as int, q));
                    assert(max_run_at(slots, i as int, q) == 1 + max_run_at(slots, i + 1, q + 1));
                    crate::model::lemma_max_run_at_bounds(slots, i + 1, q + 1);
                }
                let ghost streak0 = streak_len as int;
                let mut k2 = i + 1;
                let mut alive = true;
                while alive && k2 < n
                    invariant
                        i < n,
                        n == text_matches@.len(),
                        n <= max_len(),
                        slots == view_slots(text_matches@),
                        wf_slots(slots, max_len()),
                        i < k2 <= n,
                        st@.len() == k2 - i,
                        usv(st@).last() == q + st@.len() - 1,
                        1 <= streak_len <= n - i,
                        1 <= streak0 <= n - i,
                        alive ==> max_run_at(slots, i as int, q) == st@.len() + max_run_at(
                            slots,
                            k2 as int,
                            q + st@.len(),
                        ),
                        !alive ==> max_run_at(slots, i as int, q) == st@.len(),
                        streak_len as int == if streak0 > st@.len() {
                            streak0
                        } else {
                            st@.len() as int
                        },
                    decreases
                            n - k2 + if alive {
                                1int
                            } else {
                                0int
                            },
                {
                    let ghost qnext = q + st@.len();
                    if let Some(other) = &text_matches[k2] {
                        assert(slots[k2 as int] == Some(other@));
                        let extended = other.try_extend(&mut st, &mut streak_len);
                        if extended {
                            proof {
                                assert(slot_has(slots, k2 as int, qnext));
                                assert(max_run_at(slots, k2 as int, qnext) == 1 + max_run_at(
                                    slots,
                                    k2 + 1,
                                    qnext + 1,
                                ));
                                assert(usv(st@).last() == qnext);
                            }
                            k2 += 1;
                        } else {
                            proof {
                                assert(!slot_has(slots, k2 as int, qnext));
                                assert(max_run_at(slots, k2 as int, qnext) == 0);
                            }
                            alive = false;
                        }
                    } else {
                        proof {
                            assert(!slot_has(slots, k2 as int, qnext));
                            assert(max_run_at(slots, k2 as int, qnext) == 0);
                        }
                        alive = false;
                    }
                }
                proof {
                    if alive {
                        assert(k2 == n);
                        assert(!slot_has(slots, k2 as int, q + st@.len()));
                        assert(max_run_at(slots, i as int, q) == st@.len());
                    }
                    assert(streak_len as int == if streak0 > max_run_at(slots, i as int, q) {
                        streak0
                    } else {
                        max_run_at(slots, i as int, q)
                    });
                    assert(cm@.take(k0 + 1).drop_last() =~= cm@.take(k0));
                    assert(cm@.take(k0 + 1).last() == q);
                }
            }
            proof {
                assert(cm@.take(0) =~= Seq::<int>::empty());
                assert(best_run_over(slots, i as int, cm@.take(0)) == 0);
                assert(streak_len as int == best_run_over(slots, i as int, cm@));
            }
            let score = streak_score(i, streak_len, n, direct_bonus);
            proof {
                assert(best_at(slots, i as int, n as int, leaf) == spec_streak_score(
                    i as int,
                    streak_len as int,
                    n as int,
                    leaf,
                ));
            }
            if score > highest {
                highest = score;
            }
        } else {
            proof {
                assert(best_at(slots, i as int, n as int, leaf) == 0);
            }
        }
        i += 1;
    }
    highest
}

/// The rank of candidate `text` for query `pattern`: lower is better. An
/// empty pattern ranks by candidate length alone; a candidate equal to the
/// pattern gets the fixed best sentinel `-10000`; a candidate with no
/// surviving alignment gets the fixed worst sentinel `10000`; otherwise the
/// rank is the negated best raw streak value.
pub fn calculate_score(pattern: &str, text: &str) -> (score: i64)
    requires
        pattern@.len() <= max_len(),
        text@.len() <= max_len(),
    ensures
        score == spec_score(pattern@, text@),
{
    let pv = to_char_vec(pattern);
    let tv = to_char_vec(text);
    if pv.len() == 0 {
        tv.len() as i64
    } else if eq_chars(&pv, &tv) {
        -10_000
    } else {
        let text_matches = create_matches(pattern, text);
        if is_valid_match(&text_matches) {
            proof {
                assert(wf_slots(view_slots(text_matches@), max_len()));
            }
            -highest_score(text_matches, text)
        } else {
            10_000
        }
    }
}

/// Character-for-character equality of two character vectors.
fn eq_chars(a: &Vec<char>, b: &Vec<char>) -> (r: bool)
    ensures
        r <==> a@ == b@,
{
    if a.len() != b.len() {
        return false;
    }
    let mut k: usize = 0;
    while k < a.len()
        invariant
            k <= a@.len(),
            a@.len() == b@.len(),
            forall|j: int| 0 <= j < k ==> a@[j] == b@[j],
        decreases a@.len() - k,
    {
        if a[k] != b[k] {
            return false;
        }
        k += 1;
    }
    proof {
        assert(a@ =~= b@);
    }
    true
}

} // verus!
