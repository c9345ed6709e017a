//! Adversarial search: game-state abstraction, plain minimax, alpha-beta.
//!
//! Both search variants are specified against the same mathematical game
//! value, [`spec_value`]: the heuristic score at the horizon (or at a
//! position without successors), and otherwise the best child value, the
//! two players alternating between maximising and minimising.  Plain
//! minimax computes it directly; alpha-beta prunes, and its contract says
//! the pruning never changes the value.

use vstd::prelude::*;

pub mod alphabeta;
pub mod naive;

verus! {

/// A game position: it can enumerate the positions one move away.
///
/// `Self::V` is the position's mathematical model; `next_model` fixes, at
/// the spec level, which models follow a given model, and `next_states`
/// must produce exactly those, in order.
pub trait GameState: Sized + View {
    /// The implementation's own well-formedness condition.
    spec fn inv(&self) -> bool;

    /// The models of the positions one move away, in enumeration order.
    spec fn next_model(m: Self::V) -> Seq<Self::V>;

    /// The positions one move away.
    fn next_states(&self) -> (v: Vec<Self>)
        requires
            self.inv(),
        ensures
            v@.map_values(|x: Self| x@) == Self::next_model(self@),
            forall|i: int| 0 <= i < v@.len() ==> (#[trigger] v@[i]).inv(),
    ;

    /// An identical position as a fresh value.
    fn dup(&self) -> (r: Self)
        requires
            self.inv(),
        ensures
            r@ == self@,
            r.inv(),
    ;
}

/// A heuristic score over positions of type `T`.  `score_model` is the
/// score as a function of the position's model; `score` computes it.
pub trait Heuristic<T: GameState> {
    /// The score of a position, at the spec level.
    spec fn score_model(m: T::V) -> int;

    /// The score of a position.
    fn score(game_state: &T) -> (r: i32)
        requires
            game_state.inv(),
        ensures
            r as int == Self::score_model(game_state@),
    ;
}

/// The minimax game value of the position `m`, searched `depth` moves deep:
/// the heuristic score if the depth is exhausted or no move is possible,
/// and otherwise the best successor value — the largest when `maximize` is
/// set, the smallest otherwise, with the sense alternating as the turn
/// passes.
pub open spec fn spec_value<T: GameState, U: Heuristic<T>>(m: T::V, depth: nat, maximize: bool) -> int
    decreases depth, 0nat,
{
    let cs = T::next_model(m);
    if cs.len() == 0 || depth == 0 {
        U::score_model(m)
    } else {
        spec_extreme::<T, U>(cs, (depth - 1) as nat, !maximize)
    }
}

/// The best of the values of the positions in `cs`, each searched `depth`
/// deep with sense `child_max`: their minimum when the children maximise
/// (the chooser is the minimising player), their maximum otherwise.
pub open spec fn spec_extreme<T: GameState, U: Heuristic<T>>(
    cs: Seq<T::V>,
    depth: nat,
    child_max: bool,
) -> int
    decreases depth, cs.len(),
{
    if cs.len() <= 0 {
        0
    } else if cs.len() == 1 {
        spec_value::<T, U>(cs[0], depth, child_max)
    } else {
        let rest = spec_extreme::<T, U>(cs.drop_last(), depth, child_max);
        let lastv = spec_value::<T, U>(cs.last(), depth, child_max);
        if child_max {
            if lastv <= rest {
                lastv
            } else {
                rest
            }
        } else {
            if lastv >= rest {
                lastv
            } else {
                rest
            }
        }
    }
}

/// Position `i` is the first in `cs` to attain the best value: search picks
/// it, ties going to the earliest candidate.
pub open spec fn is_first_best<T: GameState, U: Heuristic<T>>(
    cs: Seq<T::V>,
    depth: nat,
    child_max: bool,
    i: int,
) -> bool {
    &&& 0 <= i < cs.len()
    &&& spec_value::<T, U>(cs[i], depth, child_max) == spec_extreme::<T, U>(cs, depth, child_max)
    &&& forall|j: int|
        0 <= j < i ==> spec_value::<T, U>(cs[j], depth, child_max) != spec_extreme::<T, U>(
            cs,
            depth,
            child_max,
        )
}

/// Extending a prefix of children by one combines the prefix's best value
/// with the newcomer's.
pub proof fn lemma_extreme_step<T: GameState, U: Heuristic<T>>(
    cs: Seq<T::V>,
    i: int,
    depth: nat,
    child_max: bool,
)
    requires
        0 <= i < cs.len(),
    ensures
        i == 0 ==> spec_extreme::<T, U>(cs.take(1), depth, child_max) == spec_value::<T, U>(
            cs[0],
            depth,
            child_max,
        ),
        i > 0 ==> spec_extreme::<T, U>(cs.take(i + 1), depth, child_max) == {
            let rest = spec_extreme::<T, U>(cs.take(i), depth, child_max);
            let newv = spec_value::<T, U>(cs[i], depth, child_max);
            if child_max {
                if newv <= rest {
                    newv
                } else {
                    rest
                }
            } else {
                if newv >= rest {
                    newv
                } else {
                    rest
                }
            }
        },
{
    let s = cs.take(i + 1);
    assert(s.last() == cs[i]);
    if i > 0 {
        assert(s.drop_last() =~= cs.take(i));
    }
}

/// Each position's value is bounded by the best value of any prefix that
/// contains it.
pub proof fn lemma_extreme_take_bound<T: GameState, U: Heuristic<T>>(
    cs: Seq<T::V>,
    depth: nat,
    child_max: bool,
    i: int,
    j: int,
)
    requires
        0 <= j < i <= cs.len(),
    ensures
        child_max ==> spec_value::<T, U>(cs[j], depth, child_max) >= spec_extreme::<T, U>(
            cs.take(i),
            depth,
            child_max,
        ),
        !child_max ==> spec_value::<T, U>(cs[j], depth, child_max) <= spec_extreme::<T, U>(
            cs.take(i),
            depth,
            child_max,
        ),
    decreases i,
{
    lemma_extreme_step::<T, U>(cs, i - 1, depth, child_max);
    if j < i - 1 {
        lemma_extreme_take_bound::<T, U>(cs, depth, child_max, i - 1, j);
    }
}

/// The best value over a prefix is bounded by the best value over the whole
/// sequence.
pub proof fn lemma_extreme_prefix_bound<T: GameState, U: Heuristic<T>>(
    cs: Seq<T::V>,
    depth: nat,
    child_max: bool,
    i: int,
)
    requires
        1 <= i <= cs.len(),
    ensures
        child_max ==> spec_extreme::<T, U>(cs.take(i), depth, child_max) >= spec_extreme::<T, U>(
            cs,
            depth,
            child_max,
        ),
        !child_max ==> spec_extreme::<T, U>(cs.take(i), depth, child_max) <= spec_extreme::<T, U>(
            cs,
            depth,
            child_max,
        ),
    decreases cs.len() - i,
{
    if i == cs.len() {
        assert(cs.take(i) =~= cs);
    } else {
        lemma_extreme_step::<T, U>(cs, i, depth, child_max);
        lemma_extreme_prefix_bound::<T, U>(cs, depth, child_max, i + 1);
    }
}

/// At most one position is the first to attain the best value.
pub proof fn lemma_first_best_unique<T: GameState, U: Heuristic<T>>(
    cs: Seq<T::V>,
    depth: nat,
    child_max: bool,
    i: int,
    j: int,
)
    requires
        is_first_best::<T, U>(cs, depth, child_max, i),
        is_first_best::<T, U>(cs, depth, child_max, j),
    ensures
        i == j,
{
}

} // verus!
