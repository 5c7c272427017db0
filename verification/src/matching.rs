//! Building and pruning the per-candidate-position alignment slots.

use core::cmp::Ordering;
use vstd::pervasive::VecAdditionalExecFns;
use vstd::prelude::*;
use vstd::string::StrSliceExecFns;

use crate::char_match::{view_slots, CharMatch};
use crate::model::{
    all_none, bwd_pass, bwd_scan, fwd_pass, fwd_scan, initial_slot, initial_slots,
    lemma_positions_of_props, lower_first_of, positions_of, pruned_slots, wf_slot, wf_slots,
};

verus! {

/// Relies on `char::to_lowercase`: the lowercase mapping of a character
/// depends on the character alone; this returns its first scalar value (the
/// mapping always yields at least one).
#[verifier::external_body]
pub(crate) fn lower_first(c: char) -> (r: char)
    ensures
        r == lower_first_of(c),
{
    c.to_lowercase().next().unwrap_or(c)
}

/// The characters of `s`, in order.
pub(crate) fn to_char_vec(s: &str) -> (v: Vec<char>)
    ensures
        v@ == s@,
{
    let n = s.unicode_len();
    let mut v: Vec<char> = Vec::new();
    let mut i: usize = 0;
    while i < n
        invariant
            i <= n,
            n == s@.len(),
            v@ == s@.take(i as int),
        decreases n - i,
    {
        let c = s.get_char(i);
        v.push(c);
        proof {
            assert(s@.take(i as int).push(s@[i as int]) =~= s@.take(i + 1));
        }
        i += 1;
    }
    proof {
        assert(s@.take(n as int) =~= s@);
    }
    v
}

/// The pattern index's entry for `c`: the position set of the pattern
/// positions holding `c`, or `None` when `c` occurs nowhere in the pattern.
fn positions_in(pv: &Vec<char>, c: char) -> (r: Option<CharMatch>)
    ensures
        r is Some <==> positions_of(pv@, c).len() > 0,
        r matches Some(cm) ==> cm@ == positions_of(pv@, c),
{
    let mut r: Option<CharMatch> = None;
    let mut j: usize = 0;
    while j < pv.len()
        invariant
            j <= pv@.len(),
            r is Some <==> positions_of(pv@.take(j as int), c).len() > 0,
            r matches Some(cm) ==> cm@ == positions_of(pv@.take(j as int), c),
        decreases pv@.len() - j,
    {
        proof {
            assert(pv@.take(j + 1).drop_last() =~= pv@.take(j as int));
            assert(pv@.take(j + 1).last() == pv@[j as int]);
        }
        if pv[j] == c {
            r = match r {
                None => {
                    let cm = CharMatch::new(j);
                    proof {
                        assert(cm@ =~= positions_of(pv@.take(j as int), c).push(j as int));
                    }
                    Some(cm)
                },
                Some(mut cm) => {
                    cm.push(j);
                    Some(cm)
                },
            };
        }
        j += 1;
    }
    proof {
        assert(pv@.take(pv@.len() as int) =~= pv@);
    }
    r
}

/// Whether any alignment slot survived: false exactly when no candidate
/// position can stand for any pattern position.
pub fn is_valid_match(text_matches: &Vec<Option<CharMatch>>) -> (r: bool)
    ensures
        r <==> !all_none(view_slots(text_matches@)),
{
    let mut k: usize = 0;
    while k < text_matches.len()
        invariant
            k <= text_matches@.len(),
            forall|j: int| 0 <= j < k ==> view_slots(text_matches@)[j] is None,
        decreases text_matches@.len() - k,
    {
        if text_matches[k].is_some() {
            assert(!(view_slots(text_matches@)[k as int] is None));
            return true;
        }
        k += 1;
    }
    false
}

/// Builds the alignment slots of the pattern against the text and prunes
/// them: one slot per candidate character (exact positions, else the
/// case-fold fallback, else `None`), then the forward and backward
/// feasibility passes that empty every slot that cannot take part in a
/// single left-to-right assignment of the whole pattern.
pub fn create_matches(pattern: &str, text: &str) -> (text_matches: Vec<Option<CharMatch>>)
    ensures
        view_slots(text_matches@) == pruned_slots(pattern@, text@),
        text_matches@.len() == text@.len(),
        wf_slots(view_slots(text_matches@), pattern@.len() as int),
{
    let pv = to_char_vec(pattern);
    let tv = to_char_vec(text);
    let m = pv.len();
    let n = tv.len();

    // The aligner: one slot per candidate position.
    let mut tm: Vec<Option<CharMatch>> = Vec::new();
    let mut i: usize = 0;
    while i < n
        invariant
            i <= n,
            n == tv@.len(),
            tv@ == text@,
            pv@ == pattern@,
            tm@.len() == i,
            view_slots(tm@) =~= initial_slots(pattern@, text@).take(i as int),
            wf_slots(view_slots(tm@), pattern@.len() as int),
        decreases n - i,
    {
        let c = tv[i];
        let ghost before = view_slots(tm@);
        proof {
            lemma_positions_of_props(pattern@, c);
            lemma_positions_of_props(pattern@, lower_first_of(c));
        }
        match positions_in(&pv, c) {
            Some(cm) => tm.push(Some(cm)),
            None => {
                let lc = lower_first(c);
                match positions_in(&pv, lc) {
                    Some(cm) => tm.push(Some(cm)),
                    None => tm.push(None),
                }
            },
        }
        proof {
            assert(view_slots(tm@) =~= before.push(initial_slot(pattern@, text@[i as int])));
            assert(view_slots(tm@) =~= initial_slots(pattern@, text@).take(i + 1));
        }
        i += 1;
    }
    proof {
        assert(initial_slots(pattern@, text@).take(n as int) =~= initial_slots(pattern@, text@));
    }
    let ghost init = initial_slots(pattern@, text@);

    // Forward feasibility pass.
    let mut start_from: usize = 0;
    i = 0;
    while i < m
        invariant
            i <= m,
            m == pattern@.len(),
            start_from <= n,
            n == tm@.len(),
            fwd_pass(init, 0, 0, m as int) == fwd_pass(
                view_slots(tm@),
                i as int,
                start_from as int,
                m as int,
            ),
            wf_slots(view_slots(tm@), m as int),
        decreases m - i,
    {
        let ghost s0 = view_slots(tm@);
        let ghost b0 = start_from as int;
        let mut ti = start_from;
        let mut found = false;
        while !found && ti < n
            invariant
                i < m,
                n == tm@.len(),
                ti <= n,
                wf_slots(view_slots(tm@), m as int),
                !found ==> fwd_scan(s0, i as int, b0, b0) == fwd_scan(
                    view_slots(tm@),
                    i as int,
                    ti as int,
                    b0,
                ),
                !found ==> start_from as int == b0,
                found ==> start_from <= n && fwd_scan(s0, i as int, b0, b0) == (
                    view_slots(tm@),
                    start_from as int,
                ),
            decreases
                    n - ti + if found {
                        0int
                    } else {
                        1int
                    },
        {
            let ghost cur = view_slots(tm@);
            let mut delete = false;
            if let Some(cm) = &tm[ti] {
                assert(cur[ti as int] == Some(cm@));
                let r = cm.valid_before(i);
                match r {
                    Ordering::Equal => {
                        start_from = ti + 1;
                        found = true;
                        proof {
                            assert(fwd_scan(cur, i as int, ti as int, b0) == (cur, ti + 1));
                        }
                    },
                    Ordering::Greater => {
                        delete = true;
                    },
                    Ordering::Less => {
                        proof {
                            assert(fwd_scan(cur, i as int, ti as int, b0) == fwd_scan(
                                cur,
                                i as int,
                                ti + 1,
                                b0,
                            ));
                        }
                    },
                }
            } else {
                proof {
                    assert(fwd_scan(cur, i as int, ti as int, b0) == fwd_scan(
                        cur,
                        i as int,
                        ti + 1,
                        b0,
                    ));
                }
            }
            if delete {
                tm.set(ti, None);
                proof {
                    assert(view_slots(tm@) =~= cur.update(ti as int, None));
                    assert(fwd_scan(cur, i as int, ti as int, b0) == fwd_scan(
                        view_slots(tm@),
                        i as int,
                        ti + 1,
                        b0,
                    ));
                }
            }
            if !found {
                ti += 1;
            }
        }
        proof {
            assert(fwd_pass(view_slots(tm@), i + 1, start_from as int, m as int) == fwd_pass(
                init,
                0,
                0,
                m as int,
            ));
        }
        i += 1;
    }
    let ghost after_fwd = view_slots(tm@);
    proof {
        assert((after_fwd, start_from as int) == fwd_pass(init, 0, 0, m as int));
    }

    // Backward feasibility pass.
    start_from = n;
    let mut ip = m;
    while ip > 0
        invariant
            ip <= m,
            m == pattern@.len(),
            start_from <= n,
            n == tm@.len(),
            bwd_pass(after_fwd, m - 1, n as int) == bwd_pass(
                view_slots(tm@),
                ip as int - 1,
                start_from as int,
            ),
            wf_slots(view_slots(tm@), m as int),
        decreases ip,
    {
        let i = ip - 1;
        let ghost s1 = view_slots(tm@);
        let ghost b1 = start_from as int;
        let mut tj = start_from;
        let mut found = false;
        while !found && tj > 0
            invariant
                n == tm@.len(),
                tj <= n,
                wf_slots(view_slots(tm@), m as int),
                !found ==> bwd_scan(s1, i as int, b1 - 1, b1) == bwd_scan(
                    view_slots(tm@),
                    i as int,
                    tj as int - 1,
                    b1,
                ),
                !found ==> start_from as int == b1,
                found ==> start_from <= n && bwd_scan(s1, i as int, b1 - 1, b1) == (
                    view_slots(tm@),
                    start_from as int,
                ),
            decreases
                    tj + if found {
                        0int
                    } else {
                        1int
                    },
        {
            let t = tj - 1;
            let ghost cur = view_slots(tm@);
            let mut delete = false;
            if let Some(cm) = &tm[t] {
                assert(cur[t as int] == Some(cm@));
                assert(wf_slot(cur[t as int], m as int));
                let r = cm.valid_after(i);
                match r {
                    Ordering::Equal => {
                        start_from = t;
                        found = true;
                        proof {
                            assert(bwd_scan(cur, i as int, t as int, b1) == (cur, t as int));
                        }
                    },
                    Ordering::Less => {
                        delete = true;
                    },
                    Ordering::Greater => {
                        proof {
                            assert(bwd_scan(cur, i as int, t as int, b1) == bwd_scan(
                                cur,
                                i as int,
                                t - 1,
                                b1,
                            ));
                        }
                    },
                }
            } else {
                proof {
                    assert(bwd_scan(cur, i as int, t as int, b1) == bwd_scan(
                        cur,
                        i as int,
                        t - 1,
                        b1,
                    ));
                }
            }
            if delete {
                tm.set(t, None);
                proof {
                    assert(view_slots(tm@) =~= cur.update(t as int, None));
                    assert(bwd_scan(cur, i as int, t as int, b1) == bwd_scan(
                        view_slots(tm@),
                        i as int,
                        t - 1,
                        b1,
                    ));
                }
            }
            if !found {
                tj = t;
            }
        }
        proof {
            assert(bwd_pass(view_slots(tm@), i as int - 1, start_from as int) == bwd_pass(
                after_fwd,
                m - 1,
                n as int,
            ));
        }
        ip = i;
    }
    proof {
        assert(view_slots(tm@) == bwd_pass(after_fwd, m - 1, n as int).0);
        assert(view_slots(tm@) == pruned_slots(pattern@, text@));
    }
    tm
}

} // verus!
