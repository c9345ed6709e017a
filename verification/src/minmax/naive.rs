//! Plain minimax: every successor is visited, no pruning.

use vstd::prelude::*;

use crate::minmax::{lemma_extreme_step, spec_extreme, spec_value, GameState, Heuristic};

verus! {

/// The value of `root` for the maximising player, searching
/// `steps_to_search` moves deep.
pub fn max_score<T: GameState, U: Heuristic<T>>(root: &T, steps_to_search: usize) -> (r: i32)
    requires
        root.inv(),
    ensures
        r as int == spec_value::<T, U>(root@, steps_to_search as nat, true),
    decreases steps_to_search,
{
    let states = root.next_states();
    if states.len() == 0 || steps_to_search == 0 {
        return U::score(root);
    }
    let ghost cs = T::next_model(root@);
    let ghost d = (steps_to_search - 1) as nat;
    let mut best_score: Option<i32> = None;
    let mut i: usize = 0;
    while i < states.len()
        invariant
            root.inv(),
            steps_to_search >= 1,
            states@.map_values(|x: T| x@) == cs,
            forall|k: int| 0 <= k < states@.len() ==> (#[trigger] states@[k]).inv(),
            cs.len() == states@.len(),
            cs.len() >= 1,
            d == (steps_to_search - 1) as nat,
            i <= states@.len(),
            i == 0 ==> best_score is None,
            i >= 1 ==> (best_score matches Some(bs) && bs as int == spec_extreme::<T, U>(
                cs.take(i as int),
                d,
                false,
            )),
        decreases states@.len() - i,
    {
        proof {
            assert(states@[i as int]@ == cs[i as int]);
        }
        let score = min_score::<T, U>(&states[i], steps_to_search - 1);
        proof {
            lemma_extreme_step::<T, U>(cs, i as int, d, false);
        }
        match best_score {
            Some(bs) => {
                if bs < score {
                    best_score = Some(score);
                }
            },
            None => {
                best_score = Some(score);
            },
        }
        i = i + 1;
    }
    proof {
        assert(cs.take(cs.len() as int) =~= cs);
    }
    best_score.unwrap()
}

/// The value of `root` for the minimising player, searching
/// `steps_to_search` moves deep.
pub fn min_score<T: GameState, U: Heuristic<T>>(root: &T, steps_to_search: usize) -> (r: i32)
    requires
        root.inv(),
    ensures
        r as int == spec_value::<T, U>(root@, steps_to_search as nat, false),
    decreases steps_to_search,
{
    let states = root.next_states();
    if states.len() == 0 || steps_to_search == 0 {
        return U::score(root);
    }
    let ghost cs = T::next_model(root@);
    let ghost d = (steps_to_search - 1) as nat;
    let mut best_score: Option<i32> = None;
    let mut i: usize = 0;
    while i < states.len()
        invariant
            root.inv(),
            steps_to_search >= 1,
            states@.map_values(|x: T| x@) == cs,
            forall|k: int| 0 <= k < states@.len() ==> (#[trigger] states@[k]).inv(),
            cs.len() == states@.len(),
            cs.len() >= 1,
            d == (steps_to_search - 1) as nat,
            i <= states@.len(),
            i == 0 ==> best_score is None,
            i >= 1 ==> (best_score matches Some(bs) && bs as int == spec_extreme::<T, U>(
                cs.take(i as int),
                d,
                true,
            )),
        decreases states@.len() - i,
    {
        proof {
            assert(states@[i as int]@ == cs[i as int]);
        }
        let score = max_score::<T, U>(&states[i], steps_to_search - 1);
        proof {
            lemma_extreme_step::<T, U>(cs, i as int, d, true);
        }
        match best_score {
            Some(bs) => {
                if bs > score {
                    best_score = Some(score);
                }
            },
            None => {
                best_score = Some(score);
            },
        }
        i = i + 1;
    }
    proof {
        assert(cs.take(cs.len() as int) =~= cs);
    }
    best_score.unwrap()
}

} // verus!
