//! Strategies: a uniform `get_move` interface over the search variants.
//!
//! A strategy looks at whose turn it is, evaluates every successor with its
//! search engine to its configured depth, and returns the successor with
//! the best score for the mover — the first player preferring low scores,
//! the second high ones, ties going to the earliest candidate.  Because
//! plain minimax and alpha-beta provably compute the same values, the two
//! strategies below share one choice function in their contracts.

use vstd::prelude::*;

use crate::bitboard::{bm_next, bm_to_model, encodes, BitBoard};
use crate::board::{AlmostWinHeuristic, Board, BoardModel};
use crate::bitboard::WinHeuristic;
use crate::minmax::{
    alphabeta, is_first_best, lemma_extreme_step, lemma_extreme_take_bound, lemma_first_best_unique,
    naive, spec_extreme, spec_value, GameState, Heuristic,
};
use crate::player::Player;

verus! {

/// A way of picking the next board, or nothing on a finished position.
pub trait Strategy {
    /// The strategy's own well-formedness condition.
    spec fn inv(&self) -> bool;

    /// The board this strategy picks on a given position, at the spec
    /// level.
    spec fn chosen(&self, m: BoardModel) -> Option<BoardModel>;

    /// The strategy's move: the successor it picks, or nothing when the
    /// position has no legal moves.
    fn get_move(&self, game_state: &Board) -> (r: Option<Board>)
        requires
            self.inv(),
            game_state.wf(),
        ensures
            match r {
                Some(b) => b.wf() && self.chosen(game_state@) == Some(b@),
                None => self.chosen(game_state@) is None,
            },
            game_state@.legal_seq().len() == 0 ==> r is None,
    ;
}

/// The move a depth-`steps` minimax search of the almost-win heuristic
/// picks: the first successor attaining the best value for the mover, or
/// nothing on a finished position.  Plain minimax and alpha-beta both
/// realise exactly this choice.
pub open spec fn almost_win_choice(m: BoardModel, steps: nat) -> Option<BoardModel> {
    let cs = m.legal_seq();
    if cs.len() == 0 {
        None
    } else {
        let cm = m.turn_by_count() == Player::Player1;
        Some(
            cs[choose|k: int|
                #[trigger] is_first_best::<Board, AlmostWinHeuristic>(cs, (steps - 1) as nat, cm, k)],
        )
    }
}

/// Plain minimax and alpha-beta, configured alike, choose the same move on
/// every position: their strategies' choice functions are the same
/// function.
pub proof fn lemma_strategies_agree(a: &MinimaxStrategy, b: &AlphaBetaStrategy, m: BoardModel)
    requires
        a.steps() == b.steps(),
    ensures
        a.chosen(m) == b.chosen(m),
{
}

/// A strategy built on plain minimax over the almost-win heuristic.
pub struct MinimaxStrategy {
    steps_to_search: usize,
}

impl MinimaxStrategy {
    /// The configured search depth.
    pub closed spec fn steps(&self) -> nat {
        self.steps_to_search as nat
    }

    /// A minimax strategy searching `steps_to_search` moves deep.
    pub fn new(steps_to_search: usize) -> (r: MinimaxStrategy)
        ensures
            r.steps() == steps_to_search as nat,
    {
        MinimaxStrategy { steps_to_search }
    }

    /// The best move for the first (minimising) player.
    fn get_move_player1(&self, game_state: &Board) -> (r: Option<Board>)
        requires
            self.steps() >= 1,
            game_state.wf(),
        ensures
            match r {
                Some(b) => b.wf() && (exists|k: int|
                    is_first_best::<Board, AlmostWinHeuristic>(
                        game_state@.legal_seq(),
                        (self.steps() - 1) as nat,
                        true,
                        k,
                    ) && b@ == game_state@.legal_seq()[k]),
                None => game_state@.legal_seq().len() == 0,
            },
    {
        let ghost cs = game_state@.legal_seq();
        let ghost d = (self.steps() - 1) as nat;
        let states = game_state.next_states();
        let mut best_score: Option<i32> = None;
        let mut best_board: Option<Board> = None;
        let ghost mut bk: int = 0;
        let mut i: usize = 0;
        while i < states.len()
            invariant
                self.steps() >= 1,
                d == (self.steps() - 1) as nat,
                game_state.wf(),
                cs == game_state@.legal_seq(),
                states@.map_values(|x: Board| x@) == cs,
                forall|k: int| 0 <= k < states@.len() ==> (#[trigger] states@[k]).wf(),
                cs.len() == states@.len(),
                i <= states@.len(),
                best_score is None <==> i == 0,
                best_board is None <==> i == 0,
                best_score matches Some(bs) ==> bs as int == spec_extreme::<
                    Board,
                    AlmostWinHeuristic,
                >(cs.take(i as int), d, true) && is_first_best::<Board, AlmostWinHeuristic>(
                    cs.take(i as int),
                    d,
                    true,
                    bk,
                ),
                best_board matches Some(b) ==> b.wf() && 0 <= bk < i && b@ == cs[bk],
            decreases states@.len() - i,
        {
            proof {
                assert(states@[i as int]@ == cs[i as int]);
            }
            let score = naive::max_score::<Board, AlmostWinHeuristic>(
                &states[i],
                self.steps_to_search - 1,
            );
            proof {
                lemma_extreme_step::<Board, AlmostWinHeuristic>(cs, i as int, d, true);
                let p_i = spec_extreme::<Board, AlmostWinHeuristic>(cs.take(i as int), d, true);
                if i > 0 {
                    assert forall|j: int| 0 <= j < i implies spec_value::<
                        Board,
                        AlmostWinHeuristic,
                    >(cs[j], d, true) >= p_i by {
                        assert(cs.take(i as int)[j] == cs[j]);
                        lemma_extreme_take_bound::<Board, AlmostWinHeuristic>(
                            cs,
                            d,
                            true,
                            i as int,
                            j,
                        );
                    }
                }
                assert forall|j: int| 0 <= j < i + 1 implies cs.take(i + 1)[j] == cs[j] by {}
            }
            match best_score {
                Some(bs) => {
                    if bs > score {
                        best_score = Some(score);
                        best_board = Some(states[i].dup());
                        proof {
                            bk = i as int;
                        }
                    }
                },
                None => {
                    best_score = Some(score);
                    best_board = Some(states[i].dup());
                    proof {
                        bk = i as int;
                    }
                },
            }
            i = i + 1;
        }
        proof {
            assert(cs.take(cs.len() as int) =~= cs);
        }
        best_board
    }

    /// The best move for the second (maximising) player.
    fn get_move_player2(&self, game_state: &Board) -> (r: Option<Board>)
        requires
            self.steps() >= 1,
            game_state.wf(),
        ensures
            match r {
                Some(b) => b.wf() && (exists|k: int|
                    is_first_best::<Board, AlmostWinHeuristic>(
                        game_state@.legal_seq(),
                        (self.steps() - 1) as nat,
                        false,
                        k,
                    ) && b@ == game_state@.legal_seq()[k]),
                None => game_state@.legal_seq().len() == 0,
            },
    {
        let ghost cs = game_state@.legal_seq();
        let ghost d = (self.steps() - 1) as nat;
        let states = game_state.next_states();
        let mut best_score: Option<i32> = None;
        let mut best_board: Option<Board> = None;
        let ghost mut bk: int = 0;
        let mut i: usize = 0;
        while i < states.len()
            invariant
                self.steps() >= 1,
                d == (self.steps() - 1) as nat,
                game_state.wf(),
                cs == game_state@.legal_seq(),
                states@.map_values(|x: Board| x@) == cs,
                forall|k: int| 0 <= k < states@.len() ==> (#[trigger] states@[k]).wf(),
                cs.len() == states@.len(),
                i <= states@.len(),
                best_score is None <==> i == 0,
                best_board is None <==> i == 0,
                best_score matches Some(bs) ==> bs as int == spec_extreme::<
                    Board,
                    AlmostWinHeuristic,
                >(cs.take(i as int), d, false) && is_first_best::<Board, AlmostWinHeuristic>(
                    cs.take(i as int),
                    d,
                    false,
                    bk,
                ),
                best_board matches Some(b) ==> b.wf() && 0 <= bk < i && b@ == cs[bk],
            decreases states@.len() - i,
        {
            proof {
                assert(states@[i as int]@ == cs[i as int]);
            }
            let score = naive::min_score::<Board, AlmostWinHeuristic>(
                &states[i],
                self.steps_to_search - 1,
            );
            proof {
                lemma_extreme_step::<Board, AlmostWinHeuristic>(cs, i as int, d, false);
                let p_i = spec_extreme::<Board, AlmostWinHeuristic>(cs.take(i as int), d, false);
                if i > 0 {
                    assert forall|j: int| 0 <= j < i implies spec_value::<
                        Board,
                        AlmostWinHeuristic,
                    >(cs[j], d, false) <= p_i by {
                        assert(cs.take(i as int)[j] == cs[j]);
                        lemma_extreme_take_bound::<Board, AlmostWinHeuristic>(
                            cs,
                            d,
                            false,
                            i as int,
                            j,
                        );
                    }
                }
                assert forall|j: int| 0 <= j < i + 1 implies cs.take(i + 1)[j] == cs[j] by {}
            }
            match best_score {
                Some(bs) => {
                    if bs < score {
                        best_score = Some(score);
                        best_board = Some(states[i].dup());
                        proof {
                            bk = i as int;
                        }
                    }
                },
                None => {
                    best_score = Some(score);
                    best_board = Some(states[i].dup());
                    proof {
                        bk = i as int;
                    }
                },
            }
            i = i + 1;
        }
        proof {
            assert(cs.take(cs.len() as int) =~= cs);
        }
        best_board
    }
}

impl Strategy for MinimaxStrategy {
    open spec fn inv(&self) -> bool {
        self.steps() >= 1
    }

    open spec fn chosen(&self, m: BoardModel) -> Option<BoardModel> {
        almost_win_choice(m, self.steps())
    }

    fn get_move(&self, game_state: &Board) -> (r: Option<Board>) {
        let r = match game_state.who_turn() {
            Player::Player1 => self.get_move_player1(game_state),
            Player::Player2 => self.get_move_player2(game_state),
        };
        proof {
            let cs = game_state@.legal_seq();
            let d = (self.steps() - 1) as nat;
            let cm = game_state@.turn_by_count() == Player::Player1;
            if let Some(b) = &r {
                let kw = choose|k: int|
                    is_first_best::<Board, AlmostWinHeuristic>(cs, d, cm, k) && b@ == cs[k];
                let kc = choose|k: int| is_first_best::<Board, AlmostWinHeuristic>(cs, d, cm, k);
                assert(is_first_best::<Board, AlmostWinHeuristic>(cs, d, cm, kc));
                lemma_first_best_unique::<Board, AlmostWinHeuristic>(cs, d, cm, kc, kw);
            }
        }
        r
    }
}

/// A strategy built on alpha-beta search over the almost-win heuristic.
pub struct AlphaBetaStrategy {
    steps_to_search: usize,
}

impl AlphaBetaStrategy {
    /// The configured search depth.
    pub closed spec fn steps(&self) -> nat {
        self.steps_to_search as nat
    }

    /// An alpha-beta strategy searching `steps_to_search` moves deep.
    pub fn new(steps_to_search: usize) -> (r: AlphaBetaStrategy)
        ensures
            r.steps() == steps_to_search as nat,
    {
        AlphaBetaStrategy { steps_to_search }
    }

    /// The best move for the first (minimising) player.
    fn get_move_player1(&self, game_state: &Board) -> (r: Option<Board>)
        requires
            self.steps() >= 1,
            game_state.wf(),
        ensures
            match r {
                Some(b) => b.wf() && (exists|k: int|
                    is_first_best::<Board, AlmostWinHeuristic>(
                        game_state@.legal_seq(),
                        (self.steps() - 1) as nat,
                        true,
                        k,
                    ) && b@ == game_state@.legal_seq()[k]),
                None => game_state@.legal_seq().len() == 0,
            },
    {
        if game_state.next_states().len() == 0 {
            return None;
        }
        let (s, _) = alphabeta::min_score::<Board, AlmostWinHeuristic>(
            game_state,
            self.steps_to_search,
            None,
            None,
        );
        Some(s)
    }

    /// The best move for the second (maximising) player.
    fn get_move_player2(&self, game_state: &Board) -> (r: Option<Board>)
        requires
            self.steps() >= 1,
            game_state.wf(),
        ensures
            match r {
                Some(b) => b.wf() && (exists|k: int|
                    is_first_best::<Board, AlmostWinHeuristic>(
                        game_state@.legal_seq(),
                        (self.steps() - 1) as nat,
                        false,
                        k,
                    ) && b@ == game_state@.legal_seq()[k]),
                None => game_state@.legal_seq().len() == 0,
            },
    {
        if game_state.next_states().len() == 0 {
            return None;
        }
        let (s, _) = alphabeta::max_score::<Board, AlmostWinHeuristic>(
            game_state,
            self.steps_to_search,
            None,
            None,
        );
        Some(s)
    }
}

impl Strategy for AlphaBetaStrategy {
    open spec fn inv(&self) -> bool {
        self.steps() >= 1
    }

    open spec fn chosen(&self, m: BoardModel) -> Option<BoardModel> {
        almost_win_choice(m, self.steps())
    }

    fn get_move(&self, game_state: &Board) -> (r: Option<Board>) {
        let r = match game_state.who_turn() {
            Player::Player1 => self.get_move_player1(game_state),
            Player::Player2 => self.get_move_player2(game_state),
        };
        proof {
            let cs = game_state@.legal_seq();
            let d = (self.steps() - 1) as nat;
            let cm = game_state@.turn_by_count() == Player::Player1;
            if let Some(b) = &r {
                let kw = choose|k: int|
                    is_first_best::<Board, AlmostWinHeuristic>(cs, d, cm, k) && b@ == cs[k];
                let kc = choose|k: int| is_first_best::<Board, AlmostWinHeuristic>(cs, d, cm, k);
                assert(is_first_best::<Board, AlmostWinHeuristic>(cs, d, cm, kc));
                lemma_first_best_unique::<Board, AlmostWinHeuristic>(cs, d, cm, kc, kw);
            }
        }
        r
    }
}

} // verus!

verus! {

/// A strategy built on alpha-beta search over the packed board and its
/// won-subboard heuristic.  The incoming board is packed, searched in the
/// packed form for speed, and the chosen successor is decoded again.
pub struct AlphaBetaBitBoardStrategy {
    steps_to_search: usize,
}

impl AlphaBetaBitBoardStrategy {
    /// The configured search depth.
    pub closed spec fn steps(&self) -> nat {
        self.steps_to_search as nat
    }

    /// A packed-board alpha-beta strategy searching `steps_to_search`
    /// moves deep.
    pub fn new(steps_to_search: usize) -> (r: AlphaBetaBitBoardStrategy)
        ensures
            r.steps() == steps_to_search as nat,
    {
        AlphaBetaBitBoardStrategy { steps_to_search }
    }

    /// The strategy's move: nothing on a finished position, and otherwise
    /// the decoding of the first best packed successor — best for the
    /// mover, the first player minimising — of a packed encoding of the
    /// position.  On balanced, consistent boards — every board reachable
    /// in play — the packed successors are the plain legal boards in the
    /// same order, so the choice is the first best legal board itself.
    pub fn get_move(&self, game_state: &Board) -> (r: Option<Board>)
        requires
            self.steps() >= 1,
            game_state.wf(),
        ensures
            game_state@.legal_seq().len() == 0 ==> r is None,
            r matches Some(b) ==> b.wf() && (exists|bb: BitBoard, k: int|
                encodes(bb, game_state@) && is_first_best::<BitBoard, WinHeuristic>(
                    bm_next(bb@),
                    (self.steps() - 1) as nat,
                    game_state@.turn_by_count() == Player::Player1,
                    k,
                ) && b@ == bm_to_model(bm_next(bb@)[k])),
            game_state@.balanced() && game_state@.consistent() ==> {
                &&& (r is None <==> game_state@.legal_seq().len() == 0)
                &&& (r matches Some(b) ==> (exists|k: int|
                    0 <= k < game_state@.legal_seq().len() && b@ == crate::bitboard::normalized(
                        #[trigger] game_state@.legal_seq()[k],
                    )))
            },
    {
        if game_state.get_legal_boards().len() == 0 {
            return None;
        }
        let bitboard = BitBoard::from_board(game_state);
        proof {
            if game_state@.balanced() && game_state@.consistent() {
                crate::bitboard::lemma_no_moves_agree(bitboard, game_state@);
                crate::bitboard::lemma_next_boards_agree(bitboard, game_state@);
            }
        }
        let r = match game_state.who_turn() {
            Player::Player1 => self.get_move_player1(&bitboard),
            Player::Player2 => self.get_move_player2(&bitboard),
        };
        r
    }

    /// The best move for the first (minimising) player, on the packed
    /// board.
    fn get_move_player1(&self, game_state: &BitBoard) -> (r: Option<Board>)
        requires
            self.steps() >= 1,
            game_state.wf(),
        ensures
            match r {
                Some(b) => b.wf() && (exists|k: int|
                    is_first_best::<BitBoard, WinHeuristic>(
                        bm_next(game_state@),
                        (self.steps() - 1) as nat,
                        true,
                        k,
                    ) && b@ == bm_to_model(bm_next(game_state@)[k])),
                None => bm_next(game_state@).len() == 0,
            },
    {
        if game_state.next_states().len() == 0 {
            return None;
        }
        let (s, _) = alphabeta::min_score::<BitBoard, WinHeuristic>(
            game_state,
            self.steps_to_search,
            None,
            None,
        );
        Some(s.to_board())
    }

    /// The best move for the second (maximising) player, on the packed
    /// board.
    fn get_move_player2(&self, game_state: &BitBoard) -> (r: Option<Board>)
        requires
            self.steps() >= 1,
            game_state.wf(),
        ensures
            match r {
                Some(b) => b.wf() && (exists|k: int|
                    is_first_best::<BitBoard, WinHeuristic>(
                        bm_next(game_state@),
                        (self.steps() - 1) as nat,
                        false,
                        k,
                    ) && b@ == bm_to_model(bm_next(game_state@)[k])),
                None => bm_next(game_state@).len() == 0,
            },
    {
        if game_state.next_states().len() == 0 {
            return None;
        }
        let (s, _) = alphabeta::max_score::<BitBoard, WinHeuristic>(
            game_state,
            self.steps_to_search,
            None,
            None,
        );
        Some(s.to_board())
    }
}

} // verus!
