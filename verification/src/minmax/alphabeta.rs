//! Alpha-beta minimax: minimax with pruning, plus the chosen successor.
//!
//! Both bounds are optional; an absent bound never prunes, so a call with no
//! bounds computes exactly the plain minimax value ([`spec_value`]) — the
//! contracts state this, which makes the equivalence of the two search
//! variants a verified fact rather than a test observation.  With bounds
//! the result is fail-soft: a result within the window is exact, a result at
//! or outside a bound is a one-sided bound on the true value.

use vstd::prelude::*;

use crate::minmax::{
    is_first_best, lemma_extreme_prefix_bound, lemma_extreme_step, lemma_extreme_take_bound,
    spec_extreme, spec_value, GameState, Heuristic,
};

verus! {

/// A candidate position paired with the score the search gave it.
#[derive(Debug, Clone, PartialEq)]
pub struct ScoredGameState<T> {
    pub game_state: T,
    pub score: i32,
}

/// The better-scored of two optional candidates, the first winning ties.
pub open spec fn spec_optional_max<T>(
    a: Option<ScoredGameState<T>>,
    b: Option<ScoredGameState<T>>,
) -> Option<ScoredGameState<T>> {
    match (a, b) {
        (Some(x), Some(y)) => if x.score >= y.score {
            Some(x)
        } else {
            Some(y)
        },
        (Some(x), None) => Some(x),
        (None, Some(y)) => Some(y),
        (None, None) => None,
    }
}

/// The worse-scored of two optional candidates, the first winning ties.
pub open spec fn spec_optional_min<T>(
    a: Option<ScoredGameState<T>>,
    b: Option<ScoredGameState<T>>,
) -> Option<ScoredGameState<T>> {
    match (a, b) {
        (Some(x), Some(y)) => if x.score <= y.score {
            Some(x)
        } else {
            Some(y)
        },
        (Some(x), None) => Some(x),
        (None, Some(y)) => Some(y),
        (None, None) => None,
    }
}

/// The candidate with the larger score, an absent candidate losing to any
/// present one and ties kept on the left.
pub fn optional_max<T>(a: Option<ScoredGameState<T>>, b: Option<ScoredGameState<T>>) -> (r: Option<
    ScoredGameState<T>,
>)
    ensures
        r == spec_optional_max(a, b),
{
    match (a, b) {
        (Some(x), Some(y)) => if x.score >= y.score {
            Some(x)
        } else {
            Some(y)
        },
        (Some(x), None) => Some(x),
        (None, Some(y)) => Some(y),
        (None, None) => None,
    }
}

/// The candidate with the smaller score, an absent candidate losing to any
/// present one and ties kept on the left.
pub fn optional_min<T>(a: Option<ScoredGameState<T>>, b: Option<ScoredGameState<T>>) -> (r: Option<
    ScoredGameState<T>,
>)
    ensures
        r == spec_optional_min(a, b),
{
    match (a, b) {
        (Some(x), Some(y)) => if x.score <= y.score {
            Some(x)
        } else {
            Some(y)
        },
        (Some(x), None) => Some(x),
        (None, Some(y)) => Some(y),
        (None, None) => None,
    }
}

/// The search window is sane: when both bounds are present, alpha lies
/// below beta.  The initial, unbounded window is trivially sane, and the
/// search only ever narrows windows.
pub open spec fn window_ok(alpha: Option<i32>, beta: Option<i32>) -> bool {
    match (alpha, beta) {
        (Some(a), Some(b)) => a < b,
        _ => true,
    }
}

/// The value of `root` for the maximising player to `depth`, pruned by the
/// window `(alpha, beta)`, together with the successor that attains it.
///
/// With a sane window the result is fail-soft: within the window it equals
/// the plain minimax value, at or above `beta` it is a lower bound on it
/// having been cut off, and at or below `alpha` it is an upper bound.  With
/// no bounds at all the result is exactly the minimax value and the chosen
/// successor is the first one attaining it — the same choice plain minimax
/// makes.
pub fn max_score<T: GameState, U: Heuristic<T>>(
    root: &T,
    depth: usize,
    alpha: Option<i32>,
    beta: Option<i32>,
) -> (r: (T, i32))
    requires
        root.inv(),
    ensures
        r.0.inv(),
        (T::next_model(root@).len() == 0 || depth == 0) ==> r.0@ == root@ && r.1 as int
            == U::score_model(root@),
        (T::next_model(root@).len() > 0 && depth > 0) ==> exists|k: int|
            0 <= k < T::next_model(root@).len() && r.0@ == T::next_model(root@)[k],
        window_ok(alpha, beta) ==> {
            &&& (beta matches Some(b) && r.1 >= b ==> r.1 as int <= spec_value::<T, U>(
                root@,
                depth as nat,
                true,
            ))
            &&& (alpha matches Some(a) && r.1 <= a ==> r.1 as int >= spec_value::<T, U>(
                root@,
                depth as nat,
                true,
            ))
            &&& ((match beta {
                Some(b) => r.1 < b,
                None => true,
            }) && (match alpha {
                Some(a) => r.1 > a,
                None => true,
            }) ==> r.1 as int == spec_value::<T, U>(root@, depth as nat, true))
        },
        alpha is None && beta is None ==> r.1 as int == spec_value::<T, U>(
            root@,
            depth as nat,
            true,
        ) && (T::next_model(root@).len() > 0 && depth > 0 ==> exists|k: int|
            is_first_best::<T, U>(
                T::next_model(root@),
                (depth - 1) as nat,
                false,
                k,
            ) && r.0@ == T::next_model(root@)[k]),
    decreases depth,
{
    let states = root.next_states();
    if states.len() == 0 || depth == 0 {
        return (root.dup(), U::score(root));
    }
    let ghost cs = T::next_model(root@);
    let ghost d = (depth - 1) as nat;
    let ghost ws = window_ok(alpha, beta);
    let mut alpha_cur = alpha;
    let mut best: Option<ScoredGameState<T>> = None;
    let ghost mut best_k: int = 0;
    let mut done = false;
    let mut i: usize = 0;
    while i < states.len() && !done
        invariant
            root.inv(),
            depth >= 1,
            d == (depth - 1) as nat,
            ws == window_ok(alpha, beta),
            cs == T::next_model(root@),
            states@.map_values(|x: T| x@) == cs,
            forall|k: int| 0 <= k < states@.len() ==> (#[trigger] states@[k]).inv(),
            cs.len() == states@.len(),
            cs.len() >= 1,
            i <= states@.len(),
            best is None <==> i == 0,
            best matches Some(s) ==> s.game_state.inv() && 0 <= best_k < i && s.game_state@
                == cs[best_k],
            best is None ==> alpha_cur == alpha,
            best matches Some(s) ==> alpha_cur == (match alpha {
                Some(a) => if a >= s.score {
                    Some(a)
                } else {
                    Some(s.score)
                },
                None => Some(s.score),
            }),
            ws ==> (best matches Some(s) ==> (s.score as int <= spec_extreme::<T, U>(
                cs.take(i as int),
                d,
                false,
            ) || (alpha matches Some(a) && s.score <= a))),
            ws && !done ==> (best matches Some(s) ==> s.score as int >= spec_extreme::<T, U>(
                cs.take(i as int),
                d,
                false,
            )),
            !done ==> (best matches Some(s) ==> (beta matches Some(b) ==> s.score < b)),
            done ==> (best matches Some(s) && beta matches Some(b) && s.score >= b),
            alpha is None && beta is None ==> (best matches Some(s) ==> s.score as int
                == spec_extreme::<T, U>(cs.take(i as int), d, false) && is_first_best::<T, U>(
                cs.take(i as int),
                d,
                false,
                best_k,
            )),
        decreases states@.len() - i,
    {
        proof {
            assert(states@[i as int]@ == cs[i as int]);
        }
        let st = states[i].dup();
        let (_, score_i) = min_score::<T, U>(&st, depth - 1, alpha_cur, beta);
        let ghost ob = best;
        let ghost p_i = spec_extreme::<T, U>(cs.take(i as int), d, false);
        let ghost p_next = spec_extreme::<T, U>(cs.take(i + 1), d, false);
        let ghost v_i = spec_value::<T, U>(cs[i as int], d, false);
        best = optional_max(best, Some(ScoredGameState { game_state: st, score: score_i }));
        proof {
            lemma_extreme_step::<T, U>(cs, i as int, d, false);
            if ob is None || ob.unwrap().score < score_i {
                best_k = i as int;
            }
            if alpha is None && beta is None && i > 0 {
                assert forall|j: int| 0 <= j < i implies spec_value::<T, U>(cs[j], d, false)
                    <= p_i by {
                    assert(cs.take(i as int)[j] == cs[j]);
                    lemma_extreme_take_bound::<T, U>(cs, d, false, i as int, j);
                }
            }
            if alpha is None && beta is None {
                assert forall|j: int| 0 <= j < i + 1 implies cs.take(i + 1)[j] == cs[j] by {}
            }
        }
        let cur = best.as_ref().unwrap().score;
        alpha_cur = match alpha_cur {
            Some(a) => if a >= cur {
                Some(a)
            } else {
                Some(cur)
            },
            None => Some(cur),
        };
        match beta {
            Some(b) => {
                if cur >= b {
                    done = true;
                }
            },
            None => {},
        }
        i = i + 1;
    }
    proof {
        if !done {
            assert(cs.take(cs.len() as int) =~= cs);
        } else {
            if ws {
                lemma_extreme_prefix_bound::<T, U>(cs, d, false, i as int);
            }
        }
    }
    let value = best.unwrap();
    (value.game_state, value.score)
}

/// The value of `root` for the minimising player to `depth`, pruned by the
/// window `(alpha, beta)`, together with the successor that attains it.
///
/// The mirror image of [`max_score`]: fail-soft with a sane window, exactly
/// the plain minimax value with no bounds, the first best successor chosen.
pub fn min_score<T: GameState, U: Heuristic<T>>(
    root: &T,
    depth: usize,
    alpha: Option<i32>,
    beta: Option<i32>,
) -> (r: (T, i32))
    requires
        root.inv(),
    ensures
        r.0.inv(),
        (T::next_model(root@).len() == 0 || depth == 0) ==> r.0@ == root@ && r.1 as int
            == U::score_model(root@),
        (T::next_model(root@).len() > 0 && depth > 0) ==> exists|k: int|
            0 <= k < T::next_model(root@).len() && r.0@ == T::next_model(root@)[k],
        window_ok(alpha, beta) ==> {
            &&& (beta matches Some(b) && r.1 >= b ==> r.1 as int <= spec_value::<T, U>(
                root@,
                depth as nat,
                false,
            ))
            &&& (alpha matches Some(a) && r.1 <= a ==> r.1 as int >= spec_value::<T, U>(
                root@,
                depth as nat,
                false,
            ))
            &&& ((match beta {
                Some(b) => r.1 < b,
                None => true,
            }) && (match alpha {
                Some(a) => r.1 > a,
                None => true,
            }) ==> r.1 as int == spec_value::<T, U>(root@, depth as nat, false))
        },
        alpha is None && beta is None ==> r.1 as int == spec_value::<T, U>(
            root@,
            depth as nat,
            false,
        ) && (T::next_model(root@).len() > 0 && depth > 0 ==> exists|k: int|
            is_first_best::<T, U>(
                T::next_model(root@),
                (depth - 1) as nat,
                true,
                k,
            ) && r.0@ == T::next_model(root@)[k]),
    decreases depth,
{
    let states = root.next_states();
    if states.len() == 0 || depth == 0 {
        return (root.dup(), U::score(root));
    }
    let ghost cs = T::next_model(root@);
    let ghost d = (depth - 1) as nat;
    let ghost ws = window_ok(alpha, beta);
    let mut beta_cur = beta;
    let mut best: Option<ScoredGameState<T>> = None;
    let ghost mut best_k: int = 0;
    let mut done = false;
    let mut i: usize = 0;
    while i < states.len() && !done
        invariant
            root.inv(),
            depth >= 1,
            d == (depth - 1) as nat,
            ws == window_ok(alpha, beta),
            cs == T::next_model(root@),
            states@.map_values(|x: T| x@) == cs,
            forall|k: int| 0 <= k < states@.len() ==> (#[trigger] states@[k]).inv(),
            cs.len() == states@.len(),
            cs.len() >= 1,
            i <= states@.len(),
            best is None <==> i == 0,
            best matches Some(s) ==> s.game_state.inv() && 0 <= best_k < i && s.game_state@
                == cs[best_k],
            best is None ==> beta_cur == beta,
            best matches Some(s) ==> beta_cur == (match beta {
                Some(b) => if b <= s.score {
                    Some(b)
                } else {
                    Some(s.score)
                },
                None => Some(s.score),
            }),
            ws ==> (best matches Some(s) ==> (s.score as int >= spec_extreme::<T, U>(
                cs.take(i as int),
                d,
                true,
            ) || (beta matches Some(b) && s.score >= b))),
            ws && !done ==> (best matches Some(s) ==> s.score as int <= spec_extreme::<T, U>(
                cs.take(i as int),
                d,
                true,
            )),
            !done ==> (best matches Some(s) ==> (alpha matches Some(a) ==> s.score > a)),
            done ==> (best matches Some(s) && alpha matches Some(a) && s.score <= a),
            alpha is None && beta is None ==> (best matches Some(s) ==> s.score as int
                == spec_extreme::<T, U>(cs.take(i as int), d, true) && is_first_best::<T, U>(
                cs.take(i as int),
                d,
                true,
                best_k,
            )),
        decreases states@.len() - i,
    {
        proof {
            assert(states@[i as int]@ == cs[i as int]);
        }
        let st = states[i].dup();
        let (_, score_i) = max_score::<T, U>(&st, depth - 1, alpha, beta_cur);
        let ghost ob = best;
        let ghost p_i = spec_extreme::<T, U>(cs.take(i as int), d, true);
        let ghost p_next = spec_extreme::<T, U>(cs.take(i + 1), d, true);
        let ghost v_i = spec_value::<T, U>(cs[i as int], d, true);
        best = optional_min(best, Some(ScoredGameState { game_state: st, score: score_i }));
        proof {
            lemma_extreme_step::<T, U>(cs, i as int, d, true);
            if ob is None || ob.unwrap().score > score_i {
                best_k = i as int;
            }
            if alpha is None && beta is None && i > 0 {
                assert forall|j: int| 0 <= j < i implies spec_value::<T, U>(cs[j], d, true)
                    >= p_i by {
                    assert(cs.take(i as int)[j] == cs[j]);
                    lemma_extreme_take_bound::<T, U>(cs, d, true, i as int, j);
                }
            }
            if alpha is None && beta is None {
                assert forall|j: int| 0 <= j < i + 1 implies cs.take(i + 1)[j] == cs[j] by {}
            }
        }
        let cur = best.as_ref().unwrap().score;
        beta_cur = match beta_cur {
            Some(b) => if b <= cur {
                Some(b)
            } else {
                Some(cur)
            },
            None => Some(cur),
        };
        match alpha {
            Some(a) => {
                if cur <= a {
                    done = true;
                }
            },
            None => {},
        }
        i = i + 1;
    }
    proof {
        if !done {
            assert(cs.take(cs.len() as int) =~= cs);
        } else {
            if ws {
                lemma_extreme_prefix_bound::<T, U>(cs, d, true, i as int);
            }
        }
    }
    let value = best.unwrap();
    (value.game_state, value.score)
}

} // verus!
