//! The straightforward board representation: an 81-cell grid.
//!
//! A board holds a 3x3 grid of 3x3 subboards.  Cells are stored in a flat
//! vector, subboard-major: the cell `(sr, sc, cr, cc)` (subboard row and
//! column, then cell row and column inside that subboard) lives at index
//! `27*sr + 9*sc + 3*cr + cc`.  The mathematical model of a board is
//! [`BoardModel`], and every operation's contract is stated against it.

use vstd::prelude::*;

use crate::minmax::{GameState, Heuristic};
use crate::player::{Player, Tile};

verus! {

broadcast use vstd::array::group_array_axioms;

/// The flat index of cell `(sr, sc, cr, cc)`.
pub open spec fn cell_index(sr: int, sc: int, cr: int, cc: int) -> int {
    27 * sr + 9 * sc + 3 * cr + cc
}

/// The mathematical model of a board: the 81 cells in subboard-major order,
/// the player whose turn it is, and the coordinates of the last move, if any.
pub struct BoardModel {
    pub cells: Seq<Tile>,
    pub to_move: Player,
    pub last: Option<(usize, usize, usize, usize)>,
}

/// The winner of one line of three tiles: the owner of the marks if all three
/// are equal and not empty.
pub open spec fn line_owner(a: Tile, b: Tile, c: Tile) -> Option<Player> {
    if a == b && b == c {
        a.spec_player()
    } else {
        None
    }
}

/// The first of two optional findings: scans keep the earliest hit.
pub open spec fn first_found(a: Option<Player>, b: Option<Player>) -> Option<Player> {
    if a is Some {
        a
    } else {
        b
    }
}

/// The winner of one line of three subboard outcomes: the common winner if
/// all three subboards are won by the same player.
pub open spec fn super_line_owner(
    a: Option<Player>,
    b: Option<Player>,
    c: Option<Player>,
) -> Option<Player> {
    if a is Some && a == b && b == c {
        a
    } else {
        None
    }
}

/// How many tiles of `s` equal `t`.
pub open spec fn count_tile(s: Seq<Tile>, t: Tile) -> int
    decreases s.len(),
{
    if s.len() == 0 {
        0
    } else {
        count_tile(s.drop_last(), t) + if s.last() == t {
            1int
        } else {
            0int
        }
    }
}

impl BoardModel {
    /// The model is well formed: 81 cells, and a last move (if any) with all
    /// four coordinates on the board.
    pub open spec fn wf(self) -> bool {
        &&& self.cells.len() == 81
        &&& match self.last {
            None => true,
            Some((a, b, y, x)) => a < 3 && b < 3 && y < 3 && x < 3,
        }
    }

    /// The tile in cell `(sr, sc, cr, cc)`.
    pub open spec fn cell(self, sr: int, sc: int, cr: int, cc: int) -> Tile {
        self.cells[cell_index(sr, sc, cr, cc)]
    }

    /// The winner of subboard `(sr, sc)`: the owner of the first winning line
    /// in scan order (rows top to bottom, then columns left to right, then
    /// the two diagonals).
    pub open spec fn sub_winner(self, sr: int, sc: int) -> Option<Player> {
        first_found(
            line_owner(self.cell(sr, sc, 0, 0), self.cell(sr, sc, 0, 1), self.cell(sr, sc, 0, 2)),
            first_found(
                line_owner(
                    self.cell(sr, sc, 1, 0),
                    self.cell(sr, sc, 1, 1),
                    self.cell(sr, sc, 1, 2),
                ),
                first_found(
                    line_owner(
                        self.cell(sr, sc, 2, 0),
                        self.cell(sr, sc, 2, 1),
                        self.cell(sr, sc, 2, 2),
                    ),
                    first_found(
                        line_owner(
                            self.cell(sr, sc, 0, 0),
                            self.cell(sr, sc, 1, 0),
                            self.cell(sr, sc, 2, 0),
                        ),
                        first_found(
                            line_owner(
                                self.cell(sr, sc, 0, 1),
                                self.cell(sr, sc, 1, 1),
                                self.cell(sr, sc, 2, 1),
                            ),
                            first_found(
                                line_owner(
                                    self.cell(sr, sc, 0, 2),
                                    self.cell(sr, sc, 1, 2),
                                    self.cell(sr, sc, 2, 2),
                                ),
                                first_found(
                                    line_owner(
                                        self.cell(sr, sc, 0, 0),
                                        self.cell(sr, sc, 1, 1),
                                        self.cell(sr, sc, 2, 2),
                                    ),
                                    line_owner(
                                        self.cell(sr, sc, 0, 2),
                                        self.cell(sr, sc, 1, 1),
                                        self.cell(sr, sc, 2, 0),
                                    ),
                                ),
                            ),
                        ),
                    ),
                ),
            ),
        )
    }

    /// Subboard `(sr, sc)` is completely filled.
    pub open spec fn sub_full(self, sr: int, sc: int) -> bool {
        forall|cr: int, cc: int|
            0 <= cr < 3 && 0 <= cc < 3 ==> self.cell(sr, sc, cr, cc) != Tile::Empty
    }

    /// Subboard `(sr, sc)` is decided: won by someone or completely filled.
    pub open spec fn sub_decided(self, sr: int, sc: int) -> bool {
        self.sub_winner(sr, sc) is Some || self.sub_full(sr, sc)
    }

    /// The winner of the whole board: the owner of the first line of three
    /// subboards won by the same player, in scan order (rows, columns, the
    /// main diagonal, the anti-diagonal).
    pub open spec fn winner(self) -> Option<Player> {
        first_found(
            super_line_owner(self.sub_winner(0, 0), self.sub_winner(0, 1), self.sub_winner(0, 2)),
            first_found(
                super_line_owner(
                    self.sub_winner(1, 0),
                    self.sub_winner(1, 1),
                    self.sub_winner(1, 2),
                ),
                first_found(
                    super_line_owner(
                        self.sub_winner(2, 0),
                        self.sub_winner(2, 1),
                        self.sub_winner(2, 2),
                    ),
                    first_found(
                        super_line_owner(
                            self.sub_winner(0, 0),
                            self.sub_winner(1, 0),
                            self.sub_winner(2, 0),
                        ),
                        first_found(
                            super_line_owner(
                                self.sub_winner(0, 1),
                                self.sub_winner(1, 1),
                                self.sub_winner(2, 1),
                            ),
                            first_found(
                                super_line_owner(
                                    self.sub_winner(0, 2),
                                    self.sub_winner(1, 2),
                                    self.sub_winner(2, 2),
                                ),
                                first_found(
                                    super_line_owner(
                                        self.sub_winner(0, 0),
                                        self.sub_winner(1, 1),
                                        self.sub_winner(2, 2),
                                    ),
                                    super_line_owner(
                                        self.sub_winner(0, 2),
                                        self.sub_winner(1, 1),
                                        self.sub_winner(2, 0),
                                    ),
                                ),
                            ),
                        ),
                    ),
                ),
            ),
        )
    }

    /// How many marks `p` has on the whole board.
    pub open spec fn marks(self, p: Player) -> int {
        count_tile(self.cells, p.spec_tile())
    }

    /// Whose turn it is, judged from the mark counts alone: the first player
    /// moves whenever they have no more marks than the second.
    pub open spec fn turn_by_count(self) -> Player {
        turn_of(self.cells)
    }

    /// The stored turn flag agrees with the mark counts: the first player has
    /// placed either exactly as many marks as the second (and is to move) or
    /// one more (and the second is to move).  Every board reachable from the
    /// empty board satisfies this.
    pub open spec fn balanced(self) -> bool {
        match self.to_move {
            Player::Player1 => self.marks(Player::Player1) == self.marks(Player::Player2),
            Player::Player2 => self.marks(Player::Player1) == self.marks(Player::Player2) + 1,
        }
    }

    /// How many almost-wins for `p` subboard `(sr, sc)` holds: over all
    /// eight lines, each pair of `p`-marks whose line's third cell is empty
    /// counts once.
    pub open spec fn almost_count(self, sr: int, sc: int, p: Player) -> int {
        let t = p.spec_tile();
        almost_in_line(self.cell(sr, sc, 0, 0), self.cell(sr, sc, 0, 1), self.cell(sr, sc, 0, 2), t)
            + almost_in_line(
            self.cell(sr, sc, 1, 0),
            self.cell(sr, sc, 1, 1),
            self.cell(sr, sc, 1, 2),
            t,
        ) + almost_in_line(
            self.cell(sr, sc, 2, 0),
            self.cell(sr, sc, 2, 1),
            self.cell(sr, sc, 2, 2),
            t,
        ) + almost_in_line(
            self.cell(sr, sc, 0, 0),
            self.cell(sr, sc, 1, 0),
            self.cell(sr, sc, 2, 0),
            t,
        ) + almost_in_line(
            self.cell(sr, sc, 0, 1),
            self.cell(sr, sc, 1, 1),
            self.cell(sr, sc, 2, 1),
            t,
        ) + almost_in_line(
            self.cell(sr, sc, 0, 2),
            self.cell(sr, sc, 1, 2),
            self.cell(sr, sc, 2, 2),
            t,
        ) + almost_in_line(
            self.cell(sr, sc, 0, 0),
            self.cell(sr, sc, 1, 1),
            self.cell(sr, sc, 2, 2),
            t,
        ) + almost_in_line(
            self.cell(sr, sc, 0, 2),
            self.cell(sr, sc, 1, 1),
            self.cell(sr, sc, 2, 0),
            t,
        )
    }

    /// What subboard `(sr, sc)` contributes to the heuristic: -3 or +3 when
    /// it is won, otherwise one point per player holding at least one
    /// almost-win, the first player counting negative.
    pub open spec fn sub_score(self, sr: int, sc: int) -> int {
        match self.sub_winner(sr, sc) {
            Some(Player::Player1) => -3,
            Some(Player::Player2) => 3,
            None => (if self.almost_count(sr, sc, Player::Player2) > 0 {
                1int
            } else {
                0int
            }) - (if self.almost_count(sr, sc, Player::Player1) > 0 {
                1int
            } else {
                0int
            }),
        }
    }

    /// The heuristic contributions of the first `n` subboards, in row-major
    /// order.
    pub open spec fn sub_score_sum(self, n: int) -> int
        decreases n,
    {
        if n <= 0 {
            0
        } else {
            self.sub_score_sum(n - 1) + self.sub_score((n - 1) / 3, (n - 1) % 3)
        }
    }

    /// The heuristic score of the board.  A won board scores -1000 or +1000
    /// for the first or second player; a drawn board (no legal moves left)
    /// scores 0; otherwise the nine subboard contributions are summed.
    /// Scores favourable to the first player are negative.
    pub open spec fn heuristic_score(self) -> int {
        if self.winner() == Some(Player::Player1) {
            -1000
        } else if self.winner() == Some(Player::Player2) {
            1000
        } else if self.legal_seq().len() == 0 {
            0
        } else {
            self.sub_score_sum(9)
        }
    }

    /// Player `p` owns a complete line of subboard `(sr, sc)`.
    pub open spec fn has_line(self, sr: int, sc: int, p: Player) -> bool {
        let t = p.spec_tile();
        ||| (self.cell(sr, sc, 0, 0) == t && self.cell(sr, sc, 0, 1) == t && self.cell(sr, sc, 0, 2)
            == t)
        ||| (self.cell(sr, sc, 1, 0) == t && self.cell(sr, sc, 1, 1) == t && self.cell(sr, sc, 1, 2)
            == t)
        ||| (self.cell(sr, sc, 2, 0) == t && self.cell(sr, sc, 2, 1) == t && self.cell(sr, sc, 2, 2)
            == t)
        ||| (self.cell(sr, sc, 0, 0) == t && self.cell(sr, sc, 1, 0) == t && self.cell(sr, sc, 2, 0)
            == t)
        ||| (self.cell(sr, sc, 0, 1) == t && self.cell(sr, sc, 1, 1) == t && self.cell(sr, sc, 2, 1)
            == t)
        ||| (self.cell(sr, sc, 0, 2) == t && self.cell(sr, sc, 1, 2) == t && self.cell(sr, sc, 2, 2)
            == t)
        ||| (self.cell(sr, sc, 0, 0) == t && self.cell(sr, sc, 1, 1) == t && self.cell(sr, sc, 2, 2)
            == t)
        ||| (self.cell(sr, sc, 0, 2) == t && self.cell(sr, sc, 1, 1) == t && self.cell(sr, sc, 2, 0)
            == t)
    }

    /// No subboard holds complete lines of both players at once.  This
    /// holds along every real line of play: a won subboard takes no
    /// further marks, so the loser can never complete a line there.
    pub open spec fn consistent(self) -> bool {
        forall|a: int, b: int|
            0 <= a < 3 && 0 <= b < 3 ==> !(self.has_line(a, b, Player::Player1)
                && #[trigger] self.has_line(a, b, Player::Player2))
    }

    /// Player `p` owns a line of three subboards: each subboard of a row,
    /// a column or a diagonal of the super-board holds a line of `p`.
    pub open spec fn has_super_line(self, p: Player) -> bool {
        ||| (self.has_line(0, 0, p) && self.has_line(0, 1, p) && self.has_line(0, 2, p))
        ||| (self.has_line(1, 0, p) && self.has_line(1, 1, p) && self.has_line(1, 2, p))
        ||| (self.has_line(2, 0, p) && self.has_line(2, 1, p) && self.has_line(2, 2, p))
        ||| (self.has_line(0, 0, p) && self.has_line(1, 0, p) && self.has_line(2, 0, p))
        ||| (self.has_line(0, 1, p) && self.has_line(1, 1, p) && self.has_line(2, 1, p))
        ||| (self.has_line(0, 2, p) && self.has_line(1, 2, p) && self.has_line(2, 2, p))
        ||| (self.has_line(0, 0, p) && self.has_line(1, 1, p) && self.has_line(2, 2, p))
        ||| (self.has_line(0, 2, p) && self.has_line(1, 1, p) && self.has_line(2, 0, p))
    }

    /// Placing a mark in cell `(sr, sc, cr, cc)` is legal: the game is not
    /// over, the cell is empty, its subboard is not already won, and the cell
    /// lies in the subboard forced by the last move — unless there is no last
    /// move, or the forced subboard is decided, in which case any subboard
    /// may be chosen.
    pub open spec fn move_ok(self, mv: (usize, usize, usize, usize)) -> bool {
        let (sr, sc, cr, cc) = mv;
        &&& self.winner() is None
        &&& self.cell(sr as int, sc as int, cr as int, cc as int) == Tile::Empty
        &&& self.sub_winner(sr as int, sc as int) is None
        &&& match self.last {
            None => true,
            Some((_, _, y, x)) => {
                ||| (sr == y && sc == x)
                ||| self.sub_winner(y as int, x as int) is Some
                ||| self.sub_full(y as int, x as int)
            },
        }
    }

    /// The board after the player to move marks cell `(sr, sc, cr, cc)`.
    pub open spec fn apply(self, mv: (usize, usize, usize, usize)) -> BoardModel {
        let (sr, sc, cr, cc) = mv;
        BoardModel {
            cells: self.cells.update(
                cell_index(sr as int, sc as int, cr as int, cc as int),
                self.to_move.spec_tile(),
            ),
            to_move: self.to_move.spec_other(),
            last: Some(mv),
        }
    }

    /// The boards reachable by one legal move whose flat cell index is below
    /// `n`, in ascending index order.
    pub open spec fn legal_prefix(self, n: int) -> Seq<BoardModel>
        decreases n,
    {
        if n <= 0 {
            Seq::empty()
        } else {
            self.legal_prefix(n - 1) + if self.move_ok(coords_of(n - 1)) {
                seq![self.apply(coords_of(n - 1))]
            } else {
                Seq::empty()
            }
        }
    }

    /// The boards reachable by one legal move, in ascending order of the flat
    /// index of the marked cell (that is, row-major over subboards, then over
    /// cells within a subboard).
    pub open spec fn legal_seq(self) -> Seq<BoardModel> {
        self.legal_prefix(81)
    }
}

/// How many almost-wins one line of three cells holds for the mark `t`: one
/// for each way two `t`-marks pair up with the line's remaining cell empty.
pub open spec fn almost_in_line(a: Tile, b: Tile, c: Tile, t: Tile) -> int {
    (if a == t && b == t && c == Tile::Empty {
        1int
    } else {
        0int
    }) + (if b == t && c == t && a == Tile::Empty {
        1int
    } else {
        0int
    }) + (if a == t && c == t && b == Tile::Empty {
        1int
    } else {
        0int
    })
}

/// The coordinates `(sr, sc, cr, cc)` of the cell with flat index `n`.
pub open spec fn coords_of(n: int) -> (usize, usize, usize, usize) {
    let r27 = n % 27;
    let r9 = r27 % 9;
    ((n / 27) as usize, (r27 / 9) as usize, (r9 / 3) as usize, (r9 % 3) as usize)
}

/// The flat index and the coordinates determine each other.
pub proof fn lemma_cell_index_coords(sr: int, sc: int, cr: int, cc: int)
    requires
        0 <= sr < 3,
        0 <= sc < 3,
        0 <= cr < 3,
        0 <= cc < 3,
    ensures
        0 <= cell_index(sr, sc, cr, cc) < 81,
        coords_of(cell_index(sr, sc, cr, cc)) == (
            sr as usize,
            sc as usize,
            cr as usize,
            cc as usize,
        ),
{
    let n = cell_index(sr, sc, cr, cc);
    vstd::arithmetic::div_mod::lemma_fundamental_div_mod_converse(n, 27, sr, 9 * sc + 3 * cr + cc);
    vstd::arithmetic::div_mod::lemma_fundamental_div_mod_converse(
        9 * sc + 3 * cr + cc,
        9,
        sc,
        3 * cr + cc,
    );
    vstd::arithmetic::div_mod::lemma_fundamental_div_mod_converse(3 * cr + cc, 3, cr, cc);
}

/// The tile encoded by a cell code: 0 is empty, 1 the first player, 2 the
/// second.
pub open spec fn tile_of_code(c: u8) -> Tile {
    if c == 1 {
        Tile::Player1
    } else if c == 2 {
        Tile::Player2
    } else {
        Tile::Empty
    }
}

/// The cell code of a tile.
pub open spec fn code_of_tile(t: Tile) -> u8 {
    match t {
        Tile::Empty => 0,
        Tile::Player1 => 1,
        Tile::Player2 => 2,
    }
}

/// The code stored in cell `(sr, sc, cr, cc)` of a nested cell-code array.
pub open spec fn code_at(cells: [[[[u8; 3]; 3]; 3]; 3], sr: int, sc: int, cr: int, cc: int) -> u8 {
    cells[sr][sc][cr][cc]
}

/// Every code in the nested array is a valid cell code.
pub open spec fn all_codes_valid(cells: [[[[u8; 3]; 3]; 3]; 3]) -> bool {
    forall|a: int, b: int, c: int, d: int|
        0 <= a < 3 && 0 <= b < 3 && 0 <= c < 3 && 0 <= d < 3 ==> #[trigger] code_at(
            cells,
            a,
            b,
            c,
            d,
        ) <= 2
}

/// The 81 tiles described by a nested cell-code array, in flat order.
pub open spec fn decoded_cells(cells: [[[[u8; 3]; 3]; 3]; 3]) -> Seq<Tile> {
    Seq::new(
        81,
        |n: int|
            {
                let (a, b, c, d) = coords_of(n);
                tile_of_code(code_at(cells, a as int, b as int, c as int, d as int))
            },
    )
}

/// Whose turn it is on a given cell sequence, judged from the mark counts.
pub open spec fn turn_of(cells: Seq<Tile>) -> Player {
    if count_tile(cells, Tile::Player1) <= count_tile(cells, Tile::Player2) {
        Player::Player1
    } else {
        Player::Player2
    }
}

/// The board a nested cell-code array describes: its tiles, the turn the
/// mark counts imply, and the given last move.
pub open spec fn created_model(
    cells: [[[[u8; 3]; 3]; 3]; 3],
    last_move: Option<(usize, usize, usize, usize)>,
) -> BoardModel {
    BoardModel {
        cells: decoded_cells(cells),
        to_move: turn_of(decoded_cells(cells)),
        last: last_move,
    }
}

/// The straightforward board: the 81 tiles in subboard-major order, the
/// player to move, and the last move played, if any.
#[derive(Debug, Clone, PartialEq, Eq, Hash)]
pub struct Board {
    cells: Vec<Tile>,
    player_to_move: Player,
    last_move: Option<(usize, usize, usize, usize)>,
}

impl View for Board {
    type V = BoardModel;

    closed spec fn view(&self) -> BoardModel {
        BoardModel { cells: self.cells@, to_move: self.player_to_move, last: self.last_move }
    }
}

impl Board {
    /// The board's representation is well formed.
    pub open spec fn wf(&self) -> bool {
        self@.wf()
    }

    /// The empty board: no marks, the first player to move, no last move.
    /// It is balanced and consistent, and every legal move preserves both,
    /// so each holds of every reachable board.
    pub fn new() -> (b: Board)
        ensures
            b.wf(),
            b@.cells =~= Seq::new(81, |i: int| Tile::Empty),
            b@.to_move == Player::Player1,
            b@.last is None,
            b@.balanced(),
            b@.consistent(),
    {
        let mut cells: Vec<Tile> = Vec::new();
        let mut i: usize = 0;
        while i < 81
            invariant
                i <= 81,
                cells@.len() == i,
                forall|j: int| 0 <= j < i ==> cells@[j] == Tile::Empty,
            decreases 81 - i,
        {
            cells.push(Tile::Empty);
            i = i + 1;
        }
        proof {
            lemma_count_tile_none(cells@, Tile::Player1);
            lemma_count_tile_none(cells@, Tile::Player2);
        }
        Board { cells, player_to_move: Player::Player1, last_move: None }
    }

    /// A board built from an array of cell codes and a last move.  Every
    /// code must be 0 (empty), 1 (first player's mark) or 2 (second
    /// player's); the player to move is inferred from the mark counts.  The
    /// last move is taken as given, not checked against the cells.
    pub fn create_board(
        cells: [[[[u8; 3]; 3]; 3]; 3],
        last_move: Option<(usize, usize, usize, usize)>,
    ) -> (r: Result<Board, String>)
        ensures
            r is Ok <==> all_codes_valid(cells),
            r matches Ok(b) ==> b@ == created_model(cells, last_move),
            r matches Ok(b) ==> ((last_move matches Some((a, b2, y, x)) ==> a < 3 && b2 < 3 && y < 3
                && x < 3) ==> b.wf()),
            r matches Err(e) ==> e@ == "Cells parameter"@,
    {
        let mut tiles: Vec<Tile> = Vec::new();
        let mut i: usize = 0;
        while i < 3
            invariant
                tiles@.len() == 27 * i,
                i <= 3,
                forall|n: int| 0 <= n < tiles@.len() ==> tiles@[n] == decoded_cells(cells)[n],
                forall|n: int|
                    0 <= n < tiles@.len() ==> {
                        let (a, b, c, d) = #[trigger] coords_of(n);
                        code_at(cells, a as int, b as int, c as int, d as int) <= 2
                    },
            decreases 3 - i,
        {
            let mut j: usize = 0;
            while j < 3
                invariant
                    tiles@.len() == 27 * i + 9 * j,
                    i < 3,
                    j <= 3,
                    forall|n: int| 0 <= n < tiles@.len() ==> tiles@[n] == decoded_cells(cells)[n],
                    forall|n: int|
                        0 <= n < tiles@.len() ==> {
                            let (a, b, c, d) = #[trigger] coords_of(n);
                            code_at(cells, a as int, b as int, c as int, d as int) <= 2
                        },
                decreases 3 - j,
            {
                let mut k: usize = 0;
                while k < 3
                    invariant
                        tiles@.len() == 27 * i + 9 * j + 3 * k,
                        i < 3,
                        j < 3,
                        k <= 3,
                        forall|n: int|
                            0 <= n < tiles@.len() ==> tiles@[n] == decoded_cells(cells)[n],
                        forall|n: int|
                            0 <= n < tiles@.len() ==> {
                                let (a, b, c, d) = #[trigger] coords_of(n);
                                code_at(cells, a as int, b as int, c as int, d as int) <= 2
                            },
                    decreases 3 - k,
                {
                    let mut l: usize = 0;
                    while l < 3
                        invariant
                            tiles@.len() == 27 * i + 9 * j + 3 * k + l,
                            i < 3,
                            j < 3,
                            k < 3,
                            l <= 3,
                            forall|n: int|
                                0 <= n < tiles@.len() ==> tiles@[n] == decoded_cells(cells)[n],
                            forall|n: int|
                                0 <= n < tiles@.len() ==> {
                                    let (a, b, c, d) = #[trigger] coords_of(n);
                                    code_at(cells, a as int, b as int, c as int, d as int) <= 2
                                },
                        decreases 3 - l,
                    {
                        proof {
                            lemma_cell_index_coords(i as int, j as int, k as int, l as int);
                        }
                        let code = cells[i][j][k][l];
                        let tile = match code {
                            0 => Tile::Empty,
                            1 => Tile::Player1,
                            2 => Tile::Player2,
                            _ => {
                                proof {
                                    assert(!all_codes_valid(cells)) by {
                                        assert(code_at(
                                            cells,
                                            i as int,
                                            j as int,
                                            k as int,
                                            l as int,
                                        ) == code);
                                    }
                                }
                                return Err("Cells parameter".to_owned());
                            },
                        };
                        tiles.push(tile);
                        l = l + 1;
                    }
                    k = k + 1;
                }
                j = j + 1;
            }
            i = i + 1;
        }
        proof {
            assert forall|a: int, b: int, c: int, d: int|
                0 <= a < 3 && 0 <= b < 3 && 0 <= c < 3 && 0 <= d < 3 implies #[trigger] code_at(
                cells,
                a,
                b,
                c,
                d,
            ) <= 2 by {
                lemma_cell_index_coords(a, b, c, d);
            }
            assert(tiles@ =~= decoded_cells(cells));
        }
        let mut board = Board { cells: tiles, player_to_move: Player::Player1, last_move };
        let turn = board.who_turn();
        board.player_to_move = turn;
        Ok(board)
    }

    /// The code of the tile in cell `(sr, sc, cr, cc)`.
    fn code_cell(&self, sr: usize, sc: usize, cr: usize, cc: usize) -> (r: u8)
        requires
            self.wf(),
            sr < 3,
            sc < 3,
            cr < 3,
            cc < 3,
        ensures
            r == code_of_tile(self@.cell(sr as int, sc as int, cr as int, cc as int)),
    {
        match self.cell_at(sr, sc, cr, cc) {
            Tile::Empty => 0,
            Tile::Player1 => 1,
            Tile::Player2 => 2,
        }
    }

    /// One sub-row of cell codes: cells `(sr, sc, cr, 0..3)`.
    fn code_row(&self, sr: usize, sc: usize, cr: usize) -> (r: [u8; 3])
        requires
            self.wf(),
            sr < 3,
            sc < 3,
            cr < 3,
        ensures
            forall|d: int|
                0 <= d < 3 ==> r[d] == code_of_tile(
                    self@.cell(sr as int, sc as int, cr as int, d),
                ),
    {
        [self.code_cell(sr, sc, cr, 0), self.code_cell(sr, sc, cr, 1), self.code_cell(
            sr,
            sc,
            cr,
            2,
        )]
    }

    /// The cell codes of subboard `(sr, sc)`.
    fn code_sub(&self, sr: usize, sc: usize) -> (r: [[u8; 3]; 3])
        requires
            self.wf(),
            sr < 3,
            sc < 3,
        ensures
            forall|c: int, d: int|
                0 <= c < 3 && 0 <= d < 3 ==> r[c][d] == code_of_tile(
                    self@.cell(sr as int, sc as int, c, d),
                ),
    {
        [self.code_row(sr, sc, 0), self.code_row(sr, sc, 1), self.code_row(sr, sc, 2)]
    }

    /// The cell codes of one row of subboards.
    fn code_sub_row(&self, sr: usize) -> (r: [[[u8; 3]; 3]; 3])
        requires
            self.wf(),
            sr < 3,
        ensures
            forall|b: int, c: int, d: int|
                0 <= b < 3 && 0 <= c < 3 && 0 <= d < 3 ==> r[b][c][d] == code_of_tile(
                    self@.cell(sr as int, b, c, d),
                ),
    {
        [self.code_sub(sr, 0), self.code_sub(sr, 1), self.code_sub(sr, 2)]
    }

    /// The board's cells as an array of cell codes, together with its last
    /// move.
    pub fn to_arr(&self) -> (r: ([[[[u8; 3]; 3]; 3]; 3], Option<(usize, usize, usize, usize)>))
        requires
            self.wf(),
        ensures
            forall|a: int, b: int, c: int, d: int|
                0 <= a < 3 && 0 <= b < 3 && 0 <= c < 3 && 0 <= d < 3 ==> #[trigger] code_at(
                    r.0,
                    a,
                    b,
                    c,
                    d,
                ) == code_of_tile(self@.cell(a, b, c, d)),
            r.1 == self@.last,
    {
        ([self.code_sub_row(0), self.code_sub_row(1), self.code_sub_row(2)], self.last_move)
    }

    /// The tile in cell `(sr, sc, cr, cc)`.
    pub fn cell_at(&self, sr: usize, sc: usize, cr: usize, cc: usize) -> (r: Tile)
        requires
            self.wf(),
            sr < 3,
            sc < 3,
            cr < 3,
            cc < 3,
        ensures
            r == self@.cell(sr as int, sc as int, cr as int, cc as int),
    {
        self.cells[27 * sr + 9 * sc + 3 * cr + cc]
    }

    /// A board assembled from its parts; the caller is responsible for
    /// their consistency.
    pub(crate) fn from_parts(
        cells: Vec<Tile>,
        player_to_move: Player,
        last_move: Option<(usize, usize, usize, usize)>,
    ) -> (b: Board)
        ensures
            b@ == (BoardModel { cells: cells@, to_move: player_to_move, last: last_move }),
    {
        Board { cells, player_to_move, last_move }
    }

    /// The coordinates of the last move, if any.
    pub fn get_last_move(&self) -> (r: Option<(usize, usize, usize, usize)>)
        ensures
            r == self@.last,
    {
        self.last_move
    }

    /// An identical board as a fresh value.
    pub fn dup(&self) -> (r: Board)
        ensures
            r@ == self@,
    {
        let mut cells: Vec<Tile> = Vec::new();
        let mut i: usize = 0;
        while i < self.cells.len()
            invariant
                i <= self.cells.len(),
                cells@ =~= self.cells@.take(i as int),
            decreases self.cells.len() - i,
        {
            cells.push(self.cells[i]);
            i = i + 1;
        }
        proof {
            assert(cells@ =~= self.cells@);
        }
        Board { cells, player_to_move: self.player_to_move, last_move: self.last_move }
    }

    /// The owner of one line of three cells of subboard `(sr, sc)`.
    fn check_line(
        &self,
        sr: usize,
        sc: usize,
        line: ((usize, usize), (usize, usize), (usize, usize)),
    ) -> (r: Option<Player>)
        requires
            self.wf(),
            sr < 3,
            sc < 3,
            line.0.0 < 3 && line.0.1 < 3 && line.1.0 < 3 && line.1.1 < 3 && line.2.0 < 3
                && line.2.1 < 3,
        ensures
            r == line_owner(
                self@.cell(sr as int, sc as int, line.0.0 as int, line.0.1 as int),
                self@.cell(sr as int, sc as int, line.1.0 as int, line.1.1 as int),
                self@.cell(sr as int, sc as int, line.2.0 as int, line.2.1 as int),
            ),
    {
        let a = self.cell_at(sr, sc, line.0.0, line.0.1);
        let b = self.cell_at(sr, sc, line.1.0, line.1.1);
        let c = self.cell_at(sr, sc, line.2.0, line.2.1);
        if a == b && b == c {
            a.player()
        } else {
            None
        }
    }

    /// The winner of subboard `(sr, sc)`, scanning rows, then columns, then
    /// the two diagonals.
    pub fn single_board_winner(&self, sr: usize, sc: usize) -> (r: Option<Player>)
        requires
            self.wf(),
            sr < 3,
            sc < 3,
        ensures
            r == self@.sub_winner(sr as int, sc as int),
    {
        let mut r = self.check_line(sr, sc, ((0, 0), (0, 1), (0, 2)));
        if r.is_none() {
            r = self.check_line(sr, sc, ((1, 0), (1, 1), (1, 2)));
        }
        if r.is_none() {
            r = self.check_line(sr, sc, ((2, 0), (2, 1), (2, 2)));
        }
        if r.is_none() {
            r = self.check_line(sr, sc, ((0, 0), (1, 0), (2, 0)));
        }
        if r.is_none() {
            r = self.check_line(sr, sc, ((0, 1), (1, 1), (2, 1)));
        }
        if r.is_none() {
            r = self.check_line(sr, sc, ((0, 2), (1, 2), (2, 2)));
        }
        if r.is_none() {
            r = self.check_line(sr, sc, ((0, 0), (1, 1), (2, 2)));
        }
        if r.is_none() {
            r = self.check_line(sr, sc, ((0, 2), (1, 1), (2, 0)));
        }
        r
    }

    /// Subboard `(sr, sc)` is completely filled.
    pub fn single_board_tie(&self, sr: usize, sc: usize) -> (r: bool)
        requires
            self.wf(),
            sr < 3,
            sc < 3,
        ensures
            r == self@.sub_full(sr as int, sc as int),
    {
        let mut full = true;
        let mut cr: usize = 0;
        while cr < 3
            invariant
                self.wf(),
                sr < 3,
                sc < 3,
                cr <= 3,
                full <==> forall|r: int, c: int|
                    0 <= r < cr && 0 <= c < 3 ==> self@.cell(sr as int, sc as int, r, c)
                        != Tile::Empty,
            decreases 3 - cr,
        {
            let mut cc: usize = 0;
            while cc < 3
                invariant
                    self.wf(),
                    sr < 3,
                    sc < 3,
                    cr < 3,
                    cc <= 3,
                    full <==> (forall|r: int, c: int|
                        0 <= r < cr && 0 <= c < 3 ==> self@.cell(sr as int, sc as int, r, c)
                            != Tile::Empty) && (forall|c: int|
                        0 <= c < cc ==> self@.cell(sr as int, sc as int, cr as int, c)
                            != Tile::Empty),
                decreases 3 - cc,
            {
                if self.cell_at(sr, sc, cr, cc) == Tile::Empty {
                    full = false;
                }
                cc = cc + 1;
            }
            cr = cr + 1;
        }
        full
    }

    /// The winner of the whole board, read off the grid of subboard winners:
    /// rows, then columns, then the two diagonals.
    pub fn board_winner(&self) -> (r: Option<Player>)
        requires
            self.wf(),
        ensures
            r == self@.winner(),
    {
        let mut r = self.check_super_line(((0, 0), (0, 1), (0, 2)));
        if r.is_none() {
            r = self.check_super_line(((1, 0), (1, 1), (1, 2)));
        }
        if r.is_none() {
            r = self.check_super_line(((2, 0), (2, 1), (2, 2)));
        }
        if r.is_none() {
            r = self.check_super_line(((0, 0), (1, 0), (2, 0)));
        }
        if r.is_none() {
            r = self.check_super_line(((0, 1), (1, 1), (2, 1)));
        }
        if r.is_none() {
            r = self.check_super_line(((0, 2), (1, 2), (2, 2)));
        }
        if r.is_none() {
            r = self.check_super_line(((0, 0), (1, 1), (2, 2)));
        }
        if r.is_none() {
            r = self.check_super_line(((0, 2), (1, 1), (2, 0)));
        }
        r
    }

    /// The common winner of one line of three subboards, if any.
    fn check_super_line(
        &self,
        line: ((usize, usize), (usize, usize), (usize, usize)),
    ) -> (r: Option<Player>)
        requires
            self.wf(),
            line.0.0 < 3 && line.0.1 < 3 && line.1.0 < 3 && line.1.1 < 3 && line.2.0 < 3
                && line.2.1 < 3,
        ensures
            r == super_line_owner(
                self@.sub_winner(line.0.0 as int, line.0.1 as int),
                self@.sub_winner(line.1.0 as int, line.1.1 as int),
                self@.sub_winner(line.2.0 as int, line.2.1 as int),
            ),
    {
        let a = self.single_board_winner(line.0.0, line.0.1);
        let b = self.single_board_winner(line.1.0, line.1.1);
        let c = self.single_board_winner(line.2.0, line.2.1);
        if a.is_some() && a == b && b == c {
            a
        } else {
            None
        }
    }

    /// The almost-wins one line of three cells holds for `t`.
    fn almost_in_line_count(&self, a: Tile, b: Tile, c: Tile, t: Tile) -> (r: usize)
        ensures
            r == almost_in_line(a, b, c, t),
            r <= 3,
    {
        let mut count: usize = 0;
        if a == t && b == t && c == Tile::Empty {
            count = count + 1;
        }
        if b == t && c == t && a == Tile::Empty {
            count = count + 1;
        }
        if a == t && c == t && b == Tile::Empty {
            count = count + 1;
        }
        count
    }

    /// How many almost-wins `player` holds in subboard `(x0, x1)`: pairs of
    /// marks on a row, column or diagonal whose third cell is empty.
    #[verifier::rlimit(50)]
    pub fn number_almost_wins(&self, x0: usize, x1: usize, player: Player) -> (r: usize)
        requires
            self.wf(),
            x0 < 3,
            x1 < 3,
        ensures
            r == self@.almost_count(x0 as int, x1 as int, player),
    {
        let t = player.tile();
        let c00 = self.cell_at(x0, x1, 0, 0);
        let c01 = self.cell_at(x0, x1, 0, 1);
        let c02 = self.cell_at(x0, x1, 0, 2);
        let c10 = self.cell_at(x0, x1, 1, 0);
        let c11 = self.cell_at(x0, x1, 1, 1);
        let c12 = self.cell_at(x0, x1, 1, 2);
        let c20 = self.cell_at(x0, x1, 2, 0);
        let c21 = self.cell_at(x0, x1, 2, 1);
        let c22 = self.cell_at(x0, x1, 2, 2);
        let r0 = self.almost_in_line_count(c00, c01, c02, t);
        let r1 = self.almost_in_line_count(c10, c11, c12, t);
        let r2 = self.almost_in_line_count(c20, c21, c22, t);
        let k0 = self.almost_in_line_count(c00, c10, c20, t);
        let k1 = self.almost_in_line_count(c01, c11, c21, t);
        let k2 = self.almost_in_line_count(c02, c12, c22, t);
        let d0 = self.almost_in_line_count(c00, c11, c22, t);
        let d1 = self.almost_in_line_count(c02, c11, c20, t);
        r0 + r1 + r2 + k0 + k1 + k2 + d0 + d1
    }

    /// The heuristic score of this board; see
    /// [`BoardModel::heuristic_score`].
    pub fn almost_win_score(&self) -> (r: i32)
        requires
            self.wf(),
        ensures
            r == self@.heuristic_score(),
    {
        match self.board_winner() {
            Some(Player::Player1) => {
                return -1000;
            },
            Some(Player::Player2) => {
                return 1000;
            },
            None => {},
        }
        if self.get_legal_boards().len() == 0 {
            return 0;
        }
        let mut count: i32 = 0;
        let mut s: usize = 0;
        while s < 9
            invariant
                self.wf(),
                s <= 9,
                count == self@.sub_score_sum(s as int),
                -3 * s <= count <= 3 * s,
            decreases 9 - s,
        {
            let sr = s / 3;
            let sc = s % 3;
            match self.single_board_winner(sr, sc) {
                Some(Player::Player1) => {
                    count = count - 3;
                },
                Some(Player::Player2) => {
                    count = count + 3;
                },
                None => {
                    if self.number_almost_wins(sr, sc, Player::Player2) > 0 {
                        count = count + 1;
                    }
                    if self.number_almost_wins(sr, sc, Player::Player1) > 0 {
                        count = count - 1;
                    }
                },
            }
            s = s + 1;
        }
        count
    }

    /// Marking cell `mv` is legal on this board.
    pub fn is_move_ok(&self, mv: (usize, usize, usize, usize)) -> (r: bool)
        requires
            self.wf(),
            mv.0 < 3,
            mv.1 < 3,
            mv.2 < 3,
            mv.3 < 3,
        ensures
            r == self@.move_ok(mv),
    {
        let (sr, sc, cr, cc) = mv;
        if self.board_winner().is_some() {
            return false;
        }
        if self.cell_at(sr, sc, cr, cc) != Tile::Empty {
            return false;
        }
        if self.single_board_winner(sr, sc).is_some() {
            return false;
        }
        match self.last_move {
            None => true,
            Some((_, _, y, x)) => (sr == y && sc == x) || self.single_board_winner(y, x).is_some()
                || self.single_board_tie(y, x),
        }
    }

    /// Whose turn it is, judged from the mark counts alone.
    pub fn who_turn(&self) -> (r: Player)
        requires
            self@.cells.len() == 81,
        ensures
            r == self@.turn_by_count(),
    {
        let mut player1_count: usize = 0;
        let mut player2_count: usize = 0;
        let mut i: usize = 0;
        while i < 81
            invariant
                self@.cells.len() == 81,
                i <= 81,
                player1_count == count_tile(self@.cells.take(i as int), Tile::Player1),
                player2_count == count_tile(self@.cells.take(i as int), Tile::Player2),
                player1_count <= i,
                player2_count <= i,
            decreases 81 - i,
        {
            proof {
                assert(self@.cells.take(i + 1).drop_last() =~= self@.cells.take(i as int));
                assert(self@.cells.take(i + 1).last() == self@.cells[i as int]);
            }
            match self.cells[i] {
                Tile::Player1 => {
                    player1_count = player1_count + 1;
                },
                Tile::Player2 => {
                    player2_count = player2_count + 1;
                },
                Tile::Empty => {},
            }
            i = i + 1;
        }
        proof {
            assert(self@.cells.take(81) =~= self@.cells);
        }
        if player1_count <= player2_count {
            Player::Player1
        } else {
            Player::Player2
        }
    }

    /// The boards reachable from this one by a single legal move, in
    /// ascending order of the marked cell's flat index.
    pub fn get_legal_boards(&self) -> (r: Vec<Board>)
        requires
            self.wf(),
        ensures
            r@.map_values(|b: Board| b@) == self@.legal_seq(),
            forall|i: int| 0 <= i < r@.len() ==> (#[trigger] r@[i]).wf(),
    {
        let mut states: Vec<Board> = Vec::new();
        let mut n: usize = 0;
        while n < 81
            invariant
                self.wf(),
                n <= 81,
                states@.map_values(|b: Board| b@) =~= self@.legal_prefix(n as int),
                forall|i: int| 0 <= i < states@.len() ==> (#[trigger] states@[i]).wf(),
            decreases 81 - n,
        {
            let r27 = n % 27;
            let r9 = r27 % 9;
            let mv = (n / 27, r27 / 9, r9 / 3, r9 % 3);
            proof {
                vstd::arithmetic::div_mod::lemma_fundamental_div_mod(n as int, 27);
                vstd::arithmetic::div_mod::lemma_fundamental_div_mod(r27 as int, 9);
                vstd::arithmetic::div_mod::lemma_fundamental_div_mod(r9 as int, 3);
                assert(mv == coords_of(n as int));
            }
            match TicMove::new(mv, self) {
                Some(m) => {
                    let nb = m.do_move();
                    states.push(nb);
                },
                None => {},
            }
            proof {
                assert(states@.map_values(|b: Board| b@) =~= self@.legal_prefix(n + 1));
            }
            n = n + 1;
        }
        states
    }
}

/// A single placement: the cell to mark together with the board it is to be
/// played on.  A value of this type exists only for moves that are legal on
/// that board.
pub struct TicMove<'a> {
    move_to_make: (usize, usize, usize, usize),
    board: &'a Board,
}

impl<'a> TicMove<'a> {
    /// The cell this move marks.
    pub closed spec fn mv(self) -> (usize, usize, usize, usize) {
        self.move_to_make
    }

    /// The board this move is played on.
    pub closed spec fn brd(self) -> Board {
        *self.board
    }

    /// The move's coordinates are on the board and the board is well formed.
    pub open spec fn wf(self) -> bool {
        &&& self.brd().wf()
        &&& self.mv().0 < 3
        &&& self.mv().1 < 3
        &&& self.mv().2 < 3
        &&& self.mv().3 < 3
    }

    /// A move marking cell `mv` of `board`, if that is legal.
    pub fn new(mv: (usize, usize, usize, usize), board: &'a Board) -> (r: Option<TicMove<'a>>)
        requires
            board.wf(),
            mv.0 < 3,
            mv.1 < 3,
            mv.2 < 3,
            mv.3 < 3,
        ensures
            match r {
                Some(t) => t.wf() && t.brd() == *board && t.mv() == mv && board@.move_ok(mv),
                None => !board@.move_ok(mv),
            },
    {
        if board.is_move_ok(mv) {
            Some(TicMove { move_to_make: mv, board })
        } else {
            None
        }
    }

    /// The board after this move is played: the mark is set, the turn flips,
    /// and the move becomes the last move.
    pub fn do_move(&self) -> (r: Board)
        requires
            self.wf(),
        ensures
            r@ == self.brd()@.apply(self.mv()),
            r.wf(),
    {
        let (x1, x2, x3, x4) = self.move_to_make;
        let mut nb = self.board.dup();
        let tile = self.board.player_to_move.tile();
        nb.cells.set(27 * x1 + 9 * x2 + 3 * x3 + x4, tile);
        nb.player_to_move = self.board.player_to_move.get_other_player();
        nb.last_move = Some(self.move_to_make);
        nb
    }
}

impl GameState for Board {
    open spec fn inv(&self) -> bool {
        self.wf()
    }

    open spec fn next_model(m: BoardModel) -> Seq<BoardModel> {
        m.legal_seq()
    }

    fn next_states(&self) -> (v: Vec<Board>) {
        self.get_legal_boards()
    }

    fn dup(&self) -> (r: Board) {
        Board::dup(self)
    }
}

/// The almost-win heuristic: subboards decided for a player weigh three
/// points, subboards where a player threatens a line weigh one, the first
/// player counting negative; a won board is worth a thousand.
pub struct AlmostWinHeuristic {}

impl Heuristic<Board> for AlmostWinHeuristic {
    open spec fn score_model(m: BoardModel) -> int {
        m.heuristic_score()
    }

    fn score(game_state: &Board) -> (r: i32) {
        game_state.almost_win_score()
    }
}

/// A sequence without the tile holds none of it.
proof fn lemma_count_tile_none(s: Seq<Tile>, t: Tile)
    requires
        forall|i: int| 0 <= i < s.len() ==> s[i] != t,
    ensures
        count_tile(s, t) == 0,
    decreases s.len(),
{
    if s.len() > 0 {
        lemma_count_tile_none(s.drop_last(), t);
    }
}

/// How a single update changes the count of a tile value in a sequence.
proof fn lemma_count_tile_update(s: Seq<Tile>, i: int, t: Tile, u: Tile)
    requires
        0 <= i < s.len(),
    ensures
        count_tile(s.update(i, t), u) == count_tile(s, u) + (if t == u {
            1int
        } else {
            0int
        }) - (if s[i] == u {
            1int
        } else {
            0int
        }),
    decreases s.len(),
{
    if i == s.len() - 1 {
        assert(s.update(i, t).drop_last() =~= s.drop_last());
    } else {
        assert(s.update(i, t).drop_last() =~= s.drop_last().update(i, t));
        lemma_count_tile_update(s.drop_last(), i, t, u);
    }
}

/// A legal move keeps the board balanced: the mover adds one mark, so the
/// mark-count difference swings between 0 and 1 as the turn flips.
pub proof fn lemma_move_preserves_balance(m: BoardModel, mv: (usize, usize, usize, usize))
    requires
        m.wf(),
        m.balanced(),
        m.move_ok(mv),
        mv.0 < 3,
        mv.1 < 3,
        mv.2 < 3,
        mv.3 < 3,
    ensures
        m.apply(mv).balanced(),
        m.apply(mv).wf(),
{
    let idx = cell_index(mv.0 as int, mv.1 as int, mv.2 as int, mv.3 as int);
    lemma_cell_index_coords(mv.0 as int, mv.1 as int, mv.2 as int, mv.3 as int);
    lemma_count_tile_update(m.cells, idx, m.to_move.spec_tile(), Tile::Player1);
    lemma_count_tile_update(m.cells, idx, m.to_move.spec_tile(), Tile::Player2);
}

/// A legal move produces a well-formed board.
pub proof fn lemma_move_preserves_wf(m: BoardModel, mv: (usize, usize, usize, usize))
    requires
        m.wf(),
        mv.0 < 3,
        mv.1 < 3,
        mv.2 < 3,
        mv.3 < 3,
    ensures
        m.apply(mv).wf(),
{
}

/// Mark-count balance, over the whole list of legal successor boards: from a
/// balanced board, every board one legal move away is balanced, so the
/// difference between the first and the second player's mark counts is 0 or
/// 1 on every board reachable from the empty board.
pub proof fn lemma_legal_boards_balanced(m: BoardModel)
    requires
        m.wf(),
        m.balanced(),
    ensures
        forall|i: int|
            0 <= i < m.legal_seq().len() ==> (#[trigger] m.legal_seq()[i]).balanced() && {
                let d = m.legal_seq()[i].marks(Player::Player1) - m.legal_seq()[i].marks(
                    Player::Player2,
                );
                d == 0 || d == 1
            },
{
    lemma_legal_prefix_sound(m, 81);
}

/// On a balanced board the stored turn flag is exactly what the mark
/// counts imply.
pub proof fn lemma_balanced_turn(m: BoardModel)
    requires
        m.balanced(),
    ensures
        turn_of(m.cells) == m.to_move,
{
}

/// The board turned by half a revolution: cell `(sr, sc, cr, cc)` moves to
/// `(2-sr, 2-sc, 2-cr, 2-cc)` — in flat indices, position `i` moves to
/// `80 - i` — and the last move's coordinates turn with it.
#[verifier::opaque]
pub open spec fn reflected(m: BoardModel) -> BoardModel {
    BoardModel {
        cells: Seq::new(81, |i: int| m.cells[80 - i]),
        to_move: m.to_move,
        last: match m.last {
            None => None,
            Some((a, b, y, x)) => Some(
                (
                    (2 - a as int) as usize,
                    (2 - b as int) as usize,
                    (2 - y as int) as usize,
                    (2 - x as int) as usize,
                ),
            ),
        },
    }
}

/// Reflection moves each cell to its point-reflected place.
pub proof fn lemma_reflected_cells(m: BoardModel, sr: int, sc: int, cr: int, cc: int)
    requires
        m.wf(),
        0 <= sr < 3,
        0 <= sc < 3,
        0 <= cr < 3,
        0 <= cc < 3,
    ensures
        reflected(m).cell(sr, sc, cr, cc) == m.cell(2 - sr, 2 - sc, 2 - cr, 2 - cc),
{
    reveal(reflected);
    lemma_cell_index_coords(sr, sc, cr, cc);
    lemma_cell_index_coords(2 - sr, 2 - sc, 2 - cr, 2 - cc);
}

/// The subboard scan finds a winner exactly when some player owns a line,
/// and only ever names a line's owner.
pub proof fn lemma_sub_winner_lines(m: BoardModel, sr: int, sc: int)
    requires
        0 <= sr < 3,
        0 <= sc < 3,
    ensures
        m.sub_winner(sr, sc) is Some <==> (m.has_line(sr, sc, Player::Player1) || m.has_line(
            sr,
            sc,
            Player::Player2,
        )),
        m.sub_winner(sr, sc) == Some(Player::Player1) ==> m.has_line(sr, sc, Player::Player1),
        m.sub_winner(sr, sc) == Some(Player::Player2) ==> m.has_line(sr, sc, Player::Player2),
{
}

/// On a consistent board the subboard scan names exactly the player who
/// owns a line.
pub proof fn lemma_sub_winner_consistent(m: BoardModel, sr: int, sc: int)
    requires
        0 <= sr < 3,
        0 <= sc < 3,
        m.consistent(),
    ensures
        m.sub_winner(sr, sc) == Some(Player::Player1) <==> m.has_line(sr, sc, Player::Player1),
        m.sub_winner(sr, sc) == Some(Player::Player2) <==> m.has_line(sr, sc, Player::Player2),
{
    lemma_sub_winner_lines(m, sr, sc);
}

/// On a consistent board, the super-board scan finds a winner exactly when
/// some player owns a line of subboards.
#[verifier::rlimit(100)]
#[verifier::spinoff_prover]
pub proof fn lemma_winner_lines(m: BoardModel)
    requires
        m.consistent(),
    ensures
        m.winner() is Some <==> (m.has_super_line(Player::Player1) || m.has_super_line(
            Player::Player2,
        )),
{
    assert forall|a: int, b: int| 0 <= a < 3 && 0 <= b < 3 implies ((m.sub_winner(a, b) == Some(
        Player::Player1,
    ) <==> m.has_line(a, b, Player::Player1)) && (#[trigger] m.sub_winner(a, b) == Some(
        Player::Player2,
    ) <==> m.has_line(a, b, Player::Player2))) by {
        lemma_sub_winner_consistent(m, a, b);
    }
}

/// Reflection carries each subboard's lines to the reflected subboard's
/// lines, cell occupancy and fullness with them.
#[verifier::rlimit(100)]
#[verifier::spinoff_prover]
pub proof fn lemma_reflected_sub(m: BoardModel, a: int, b: int)
    requires
        m.wf(),
        0 <= a < 3,
        0 <= b < 3,
    ensures
        reflected(m).has_line(a, b, Player::Player1) == m.has_line(2 - a, 2 - b, Player::Player1),
        reflected(m).has_line(a, b, Player::Player2) == m.has_line(2 - a, 2 - b, Player::Player2),
        reflected(m).sub_full(a, b) == m.sub_full(2 - a, 2 - b),
        reflected(m).almost_count(a, b, Player::Player1) == m.almost_count(
            2 - a,
            2 - b,
            Player::Player1,
        ),
        reflected(m).almost_count(a, b, Player::Player2) == m.almost_count(
            2 - a,
            2 - b,
            Player::Player2,
        ),
{
    assert forall|cr: int, cc: int| 0 <= cr < 3 && 0 <= cc < 3 implies #[trigger] reflected(
        m,
    ).cell(a, b, cr, cc) == m.cell(2 - a, 2 - b, 2 - cr, 2 - cc) by {
        lemma_reflected_cells(m, a, b, cr, cc);
    }
    assert(reflected(m).sub_full(a, b) == m.sub_full(2 - a, 2 - b)) by {
        if reflected(m).sub_full(a, b) {
            assert forall|cr: int, cc: int| 0 <= cr < 3 && 0 <= cc < 3 implies #[trigger] m.cell(
                2 - a,
                2 - b,
                cr,
                cc,
            ) != Tile::Empty by {
                assert(reflected(m).cell(a, b, 2 - cr, 2 - cc) != Tile::Empty);
            }
        } else {
            if m.sub_full(2 - a, 2 - b) {
                assert forall|cr: int, cc: int| 0 <= cr < 3 && 0 <= cc < 3 implies #[trigger] reflected(
                    m,
                ).cell(a, b, cr, cc) != Tile::Empty by {
                    assert(m.cell(2 - a, 2 - b, 2 - cr, 2 - cc) != Tile::Empty);
                }
            }
        }
    }
}

/// When at most one player owns a super line, the winner scan names
/// exactly that player.
#[verifier::rlimit(100)]
#[verifier::spinoff_prover]
pub proof fn lemma_winner_value(m: BoardModel)
    requires
        m.consistent(),
        !(m.has_super_line(Player::Player1) && m.has_super_line(Player::Player2)),
    ensures
        m.winner() == Some(Player::Player1) <==> m.has_super_line(Player::Player1),
        m.winner() == Some(Player::Player2) <==> m.has_super_line(Player::Player2),
{
    assert forall|a: int, b: int| 0 <= a < 3 && 0 <= b < 3 implies ((m.sub_winner(a, b) == Some(
        Player::Player1,
    ) <==> m.has_line(a, b, Player::Player1)) && (#[trigger] m.sub_winner(a, b) == Some(
        Player::Player2,
    ) <==> m.has_line(a, b, Player::Player2))) by {
        lemma_sub_winner_consistent(m, a, b);
    }
}

/// Reflection keeps consistency and carries each player's super lines
/// over.
#[verifier::rlimit(100)]
#[verifier::spinoff_prover]
pub proof fn lemma_reflected_super(m: BoardModel)
    requires
        m.wf(),
    ensures
        reflected(m).has_super_line(Player::Player1) == m.has_super_line(Player::Player1),
        reflected(m).has_super_line(Player::Player2) == m.has_super_line(Player::Player2),
        m.consistent() ==> reflected(m).consistent(),
        reflected(m).wf(),
{
    reveal(reflected);
    assert forall|a: int, b: int| 0 <= a < 3 && 0 <= b < 3 implies ((#[trigger] reflected(
        m,
    ).has_line(a, b, Player::Player1) == m.has_line(2 - a, 2 - b, Player::Player1)) && (reflected(
        m,
    ).has_line(a, b, Player::Player2) == m.has_line(2 - a, 2 - b, Player::Player2))) by {
        lemma_reflected_sub(m, a, b);
    }
}

/// Reflection carries legal moves to legal moves.
#[verifier::rlimit(100)]
#[verifier::spinoff_prover]
pub proof fn lemma_reflected_move_ok(m: BoardModel, mv: (usize, usize, usize, usize))
    requires
        m.wf(),
        m.consistent(),
        !(m.has_super_line(Player::Player1) && m.has_super_line(Player::Player2)),
        mv.0 < 3,
        mv.1 < 3,
        mv.2 < 3,
        mv.3 < 3,
    ensures
        reflected(m).move_ok(
            (
                (2 - mv.0 as int) as usize,
                (2 - mv.1 as int) as usize,
                (2 - mv.2 as int) as usize,
                (2 - mv.3 as int) as usize,
            ),
        ) == m.move_ok(mv),
{
    reveal(reflected);
    let rm = reflected(m);
    lemma_reflected_super(m);
    lemma_winner_lines(m);
    lemma_winner_lines(rm);
    lemma_reflected_cells(m, 2 - mv.0 as int, 2 - mv.1 as int, 2 - mv.2 as int, 2 - mv.3 as int);
    lemma_reflected_sub(m, 2 - mv.0 as int, 2 - mv.1 as int);
    lemma_sub_winner_lines(m, mv.0 as int, mv.1 as int);
    lemma_sub_winner_lines(rm, 2 - mv.0 as int, 2 - mv.1 as int);
    match m.last {
        None => {},
        Some((_, _, y, x)) => {
            lemma_reflected_sub(m, 2 - y as int, 2 - x as int);
            lemma_sub_winner_lines(m, y as int, x as int);
            lemma_sub_winner_lines(rm, 2 - y as int, 2 - x as int);
        },
    }
}

/// Reflection keeps a finished board finished and an open board open.
#[verifier::rlimit(100)]
#[verifier::spinoff_prover]
pub proof fn lemma_reflected_legal_empty(m: BoardModel)
    requires
        m.wf(),
        m.consistent(),
        !(m.has_super_line(Player::Player1) && m.has_super_line(Player::Player2)),
    ensures
        (reflected(m).legal_seq().len() == 0) == (m.legal_seq().len() == 0),
{
    let rm = reflected(m);
    lemma_legal_prefix_all_blocked(m, 81);
    lemma_legal_prefix_all_blocked(rm, 81);
    if m.legal_seq().len() == 0 {
        assert forall|k: int| 0 <= k < 81 implies !#[trigger] rm.move_ok(coords_of(k)) by {
            vstd::arithmetic::div_mod::lemma_fundamental_div_mod(k, 27);
            vstd::arithmetic::div_mod::lemma_fundamental_div_mod(k % 27, 9);
            vstd::arithmetic::div_mod::lemma_fundamental_div_mod(k % 27 % 9, 3);
            let (a, b, c, d) = coords_of(k);
            let mv = ((2 - a as int) as usize, (2 - b as int) as usize, (2 - c as int) as usize, (2
                - d as int) as usize);
            lemma_cell_index_coords(mv.0 as int, mv.1 as int, mv.2 as int, mv.3 as int);
            assert(!m.move_ok(coords_of(cell_index(mv.0 as int, mv.1 as int, mv.2 as int, mv.3 as int))));
            lemma_reflected_move_ok(m, mv);
        }
    } else {
        if rm.legal_seq().len() == 0 {
            let k = choose|k: int| 0 <= k < 81 && #[trigger] m.move_ok(coords_of(k));
            vstd::arithmetic::div_mod::lemma_fundamental_div_mod(k, 27);
            vstd::arithmetic::div_mod::lemma_fundamental_div_mod(k % 27, 9);
            vstd::arithmetic::div_mod::lemma_fundamental_div_mod(k % 27 % 9, 3);
            let (a, b, c, d) = coords_of(k);
            lemma_reflected_move_ok(m, (a, b, c, d));
            let rv = ((2 - a as int) as usize, (2 - b as int) as usize, (2 - c as int) as usize, (2
                - d as int) as usize);
            lemma_cell_index_coords(rv.0 as int, rv.1 as int, rv.2 as int, rv.3 as int);
            assert(coords_of(cell_index(rv.0 as int, rv.1 as int, rv.2 as int, rv.3 as int)) == rv);
            assert(rm.move_ok(rv));
            assert(false);
        }
    }
}

/// Reflection keeps the winner: at most one player owns a super line, and
/// reflection carries it over.
#[verifier::rlimit(100)]
#[verifier::spinoff_prover]
proof fn lemma_reflected_winner(m: BoardModel)
    requires
        m.wf(),
        m.consistent(),
        !(m.has_super_line(Player::Player1) && m.has_super_line(Player::Player2)),
    ensures
        reflected(m).winner() == m.winner(),
{
    let rm = reflected(m);
    lemma_reflected_super(m);
    lemma_winner_value(m);
    lemma_winner_value(rm);
    lemma_winner_lines(m);
    lemma_winner_lines(rm);
}

/// Reflection keeps the summed subboard contributions.
#[verifier::rlimit(100)]
#[verifier::spinoff_prover]
proof fn lemma_reflected_sum(m: BoardModel)
    requires
        m.wf(),
        m.consistent(),
    ensures
        reflected(m).sub_score_sum(9) == m.sub_score_sum(9),
{
    let rm = reflected(m);
    lemma_reflected_super(m);
    assert forall|a: int, b: int| 0 <= a < 3 && 0 <= b < 3 implies #[trigger] rm.sub_score(a, b)
        == m.sub_score(2 - a, 2 - b) by {
        lemma_reflected_sub(m, a, b);
        lemma_sub_winner_consistent(m, 2 - a, 2 - b);
        lemma_sub_winner_consistent(rm, a, b);
    }
    reveal_with_fuel(BoardModel::sub_score_sum, 10);
    assert(rm.sub_score_sum(9) == m.sub_score_sum(9));
}

/// Two boards with the same winner, the same finishedness and the same
/// summed subboard contributions score alike.
#[verifier::rlimit(100)]
#[verifier::spinoff_prover]
proof fn lemma_heuristic_from_parts(m: BoardModel, rm: BoardModel)
    requires
        rm.winner() == m.winner(),
        (rm.legal_seq().len() == 0) == (m.legal_seq().len() == 0),
        rm.sub_score_sum(9) == m.sub_score_sum(9),
    ensures
        rm.heuristic_score() == m.heuristic_score(),
{
}

/// The heuristic is symmetric under a half revolution of the board: as
/// long as at most one player owns a super line — as is the case along
/// every real line of play — a position and its point reflection score
/// alike.
#[verifier::rlimit(100)]
#[verifier::spinoff_prover]
pub proof fn lemma_heuristic_reflection(m: BoardModel)
    requires
        m.wf(),
        m.consistent(),
        !(m.has_super_line(Player::Player1) && m.has_super_line(Player::Player2)),
    ensures
        reflected(m).heuristic_score() == m.heuristic_score(),
{
    let rm = reflected(m);
    lemma_reflected_winner(m);
    lemma_reflected_legal_empty(m);
    lemma_reflected_sum(m);
    lemma_heuristic_from_parts(m, rm);
}

/// A legal move keeps the board consistent: it cannot enter a won
/// subboard, and in an unwon one it adds only the mover's mark, so the
/// opponent gains no line there.
pub proof fn lemma_move_preserves_consistency(m: BoardModel, mv: (usize, usize, usize, usize))
    requires
        m.wf(),
        m.consistent(),
        m.move_ok(mv),
        mv.0 < 3,
        mv.1 < 3,
        mv.2 < 3,
        mv.3 < 3,
    ensures
        m.apply(mv).consistent(),
{
    let m2 = m.apply(mv);
    assert forall|a: int, b: int| 0 <= a < 3 && 0 <= b < 3 implies !(m2.has_line(
        a,
        b,
        Player::Player1,
    ) && #[trigger] m2.has_line(a, b, Player::Player2)) by {
        assert forall|cr: int, cc: int| 0 <= cr < 3 && 0 <= cc < 3 implies #[trigger] m2.cell(
            a,
            b,
            cr,
            cc,
        ) == (if a == mv.0 && b == mv.1 && cr == mv.2 && cc == mv.3 {
            m.to_move.spec_tile()
        } else {
            m.cell(a, b, cr, cc)
        }) by {
            lemma_cell_index_coords(a, b, cr, cc);
            lemma_cell_index_coords(mv.0 as int, mv.1 as int, mv.2 as int, mv.3 as int);
        }
        if a == mv.0 && b == mv.1 {
            lemma_sub_winner_lines(m, a, b);
            assert(!m.has_line(a, b, Player::Player1) && !m.has_line(a, b, Player::Player2));
            let opp = m.to_move.spec_other();
            if m2.has_line(a, b, opp) {
                assert(m.has_line(a, b, opp));
            }
        } else {
            assert(m2.has_line(a, b, Player::Player1) == m.has_line(a, b, Player::Player1));
            assert(m2.has_line(a, b, Player::Player2) == m.has_line(a, b, Player::Player2));
            assert(!(m.has_line(a, b, Player::Player1) && m.has_line(a, b, Player::Player2)));
        }
    }
}

/// No legal move lands in a decided subboard: a won subboard is excluded
/// outright, and a full one has no empty cell left.
pub proof fn lemma_decided_excluded(m: BoardModel, r: int, c: int)
    requires
        m.wf(),
        0 <= r < 3,
        0 <= c < 3,
        m.sub_decided(r, c),
    ensures
        forall|mv: (usize, usize, usize, usize)|
            mv.0 == r && mv.1 == c && mv.2 < 3 && mv.3 < 3 ==> !m.move_ok(mv),
{
}

/// A legal move leaves every decided subboard decided: the move cannot land
/// in it, so its nine cells are untouched.  Together with
/// [`lemma_decided_excluded`] this says that once a subboard is decided,
/// none of its cells ever appears in a legal move again along that line of
/// play.
pub proof fn lemma_decided_stays_decided(
    m: BoardModel,
    mv: (usize, usize, usize, usize),
    r: int,
    c: int,
)
    requires
        m.wf(),
        mv.0 < 3,
        mv.1 < 3,
        mv.2 < 3,
        mv.3 < 3,
        m.move_ok(mv),
        0 <= r < 3,
        0 <= c < 3,
        m.sub_decided(r, c),
    ensures
        m.apply(mv).sub_decided(r, c),
{
    lemma_decided_excluded(m, r, c);
    assert(!(mv.0 == r && mv.1 == c));
    let m2 = m.apply(mv);
    assert forall|cr: int, cc: int| 0 <= cr < 3 && 0 <= cc < 3 implies m2.cell(r, c, cr, cc)
        == m.cell(r, c, cr, cc) by {
        lemma_cell_index_coords(r, c, cr, cc);
        lemma_cell_index_coords(mv.0 as int, mv.1 as int, mv.2 as int, mv.3 as int);
    }
    assert(m2.sub_winner(r, c) == m.sub_winner(r, c));
    if m.sub_full(r, c) {
        assert(m2.sub_full(r, c));
    }
}

/// A legal prefix is empty exactly when every cell index below its bound
/// admits no move.
pub proof fn lemma_legal_prefix_all_blocked(m: BoardModel, n: int)
    requires
        0 <= n <= 81,
    ensures
        m.legal_prefix(n).len() == 0 <==> (forall|k: int|
            0 <= k < n ==> !#[trigger] m.move_ok(coords_of(k))),
    decreases n,
{
    if n > 0 {
        lemma_legal_prefix_all_blocked(m, n - 1);
    }
}

/// Every board in a legal prefix arises from a legal move, is well formed,
/// and inherits balance.
proof fn lemma_legal_prefix_sound(m: BoardModel, n: int)
    requires
        m.wf(),
        0 <= n <= 81,
    ensures
        forall|i: int|
            0 <= i < m.legal_prefix(n).len() ==> ((#[trigger] m.legal_prefix(n)[i]).wf() && (
            m.balanced() ==> m.legal_prefix(n)[i].balanced() && {
                let d = m.legal_prefix(n)[i].marks(Player::Player1) - m.legal_prefix(n)[i].marks(
                    Player::Player2,
                );
                d == 0 || d == 1
            })),
    decreases n,
{
    if n > 0 {
        lemma_legal_prefix_sound(m, n - 1);
        let mv = coords_of(n - 1);
        vstd::arithmetic::div_mod::lemma_fundamental_div_mod(n - 1, 27);
        vstd::arithmetic::div_mod::lemma_fundamental_div_mod((n - 1) % 27, 9);
        vstd::arithmetic::div_mod::lemma_fundamental_div_mod((n - 1) % 27 % 9, 3);
        assert(mv.0 < 3 && mv.1 < 3 && mv.2 < 3 && mv.3 < 3);
        if m.move_ok(mv) {
            lemma_move_preserves_wf(m, mv);
            if m.balanced() {
                lemma_move_preserves_balance(m, mv);
            }
        }
        let pre = m.legal_prefix(n - 1);
        assert forall|i: int| 0 <= i < m.legal_prefix(n).len() implies ((#[trigger] m.legal_prefix(
            n,
        )[i]).wf() && (m.balanced() ==> m.legal_prefix(n)[i].balanced() && {
            let d = m.legal_prefix(n)[i].marks(Player::Player1) - m.legal_prefix(n)[i].marks(
                Player::Player2,
            );
            d == 0 || d == 1
        })) by {
            if i < pre.len() {
                assert(m.legal_prefix(n)[i] == pre[i]);
            } else {
                assert(m.move_ok(mv));
                assert(m.legal_prefix(n)[i] == m.apply(mv));
            }
        }
    }
}

} // verus!
