//! The text form of a board: 81 cell characters in a 9x9 grid.
//!
//! `x` and `o` are the two players' marks and `.` an empty cell, all read
//! case-insensitively; whitespace is ignored.  An uppercase mark or a
//! backtick (an empty cell so marked) additionally flags its subboard as
//! the one the last move forces; several flags may appear, but they must
//! all lie in one subboard.  Parsing fails, with a distinct message for
//! each case, when the grid does not hold exactly 81 cells, when a
//! character is not a cell character, when the flagged cells span more
//! than one subboard, or when the mark counts fit no sequence of play.

use vstd::prelude::*;
use vstd::string::StringSliceAdditionalSpecFns;

use crate::board::{cell_index, Board, BoardModel};
use crate::player::{Player, Tile};

verus! {

/// The byte is one of the whitespace characters the parser skips.
pub open spec fn is_ws(b: u8) -> bool {
    b == 32 || b == 9 || b == 10 || b == 13
}

/// The bytes of the text with whitespace removed.
pub open spec fn filtered(bs: Seq<u8>) -> Seq<u8>
    decreases bs.len(),
{
    if bs.len() == 0 {
        Seq::empty()
    } else {
        filtered(bs.drop_last()) + if is_ws(bs.last()) {
            Seq::empty()
        } else {
            seq![bs.last()]
        }
    }
}

/// The byte flags its cell as part of the forced subboard: an uppercase
/// letter or a backtick.
pub open spec fn is_marker_byte(b: u8) -> bool {
    (65 <= b <= 90) || b == 96
}

/// The byte is a cell character: a mark of either player in either case,
/// an empty cell, or a flagged empty cell.
pub open spec fn is_cell_byte(b: u8) -> bool {
    b == 120 || b == 88 || b == 111 || b == 79 || b == 46 || b == 96
}

/// The tile a cell byte stands for.
pub open spec fn tile_of_byte(b: u8) -> Tile {
    if b == 120 || b == 88 {
        Tile::Player1
    } else if b == 111 || b == 79 {
        Tile::Player2
    } else {
        Tile::Empty
    }
}

/// The subboard (row, column) of the cell at text position `n`: the text
/// runs row-major over the whole 9x9 grid.
pub open spec fn marker_sub(n: int) -> (int, int) {
    (n / 27, (n % 9) / 3)
}

/// The flat model index of the cell at text position `n`.
pub open spec fn model_idx_of_text(n: int) -> int {
    cell_index(n / 27, (n % 9) / 3, (n % 27) / 9, n % 3)
}

/// Position `a` holds the first flagged cell of the text.
pub open spec fn is_first_marker(f: Seq<u8>, a: int) -> bool {
    &&& 0 <= a < 81
    &&& is_marker_byte(f[a])
    &&& forall|c: int| 0 <= c < a ==> !is_marker_byte(#[trigger] f[c])
}

/// The scan reports an ambiguous last move at position `n`: the cell is
/// flagged but lies outside the first flagged cell's subboard.
pub open spec fn err_unclear_at(f: Seq<u8>, n: int) -> bool {
    &&& 0 <= n < 81
    &&& is_marker_byte(f[n])
    &&& exists|a: int| #[trigger] is_first_marker(f, a) && a < n && marker_sub(a) != marker_sub(n)
}

/// The scan reports an unknown character at position `n`.
pub open spec fn err_unknown_at(f: Seq<u8>, n: int) -> bool {
    0 <= n < 81 && !is_cell_byte(f[n])
}

/// The scan stops with an error at position `n`.
pub open spec fn parse_stop_at(f: Seq<u8>, n: int) -> bool {
    err_unclear_at(f, n) || err_unknown_at(f, n)
}

/// How many of the first `n` cell bytes are first-player marks.
pub open spec fn count_p1_bytes(f: Seq<u8>, n: int) -> int
    decreases n,
{
    if n <= 0 {
        0
    } else {
        count_p1_bytes(f, n - 1) + if f[n - 1] == 120 || f[n - 1] == 88 {
            1int
        } else {
            0int
        }
    }
}

/// How many of the first `n` cell bytes are second-player marks.
pub open spec fn count_p2_bytes(f: Seq<u8>, n: int) -> int
    decreases n,
{
    if n <= 0 {
        0
    } else {
        count_p2_bytes(f, n - 1) + if f[n - 1] == 111 || f[n - 1] == 79 {
            1int
        } else {
            0int
        }
    }
}

/// The mark counts fit a sequence of play: the first player has placed as
/// many marks as the second, or one more.
pub open spec fn counts_plausible(f: Seq<u8>) -> bool {
    count_p1_bytes(f, 81) == count_p2_bytes(f, 81) || count_p1_bytes(f, 81) == count_p2_bytes(f, 81)
        + 1
}

/// The whole text parses: 81 cells, no scan error, plausible counts.
pub open spec fn parse_good(f: Seq<u8>) -> bool {
    &&& f.len() == 81
    &&& forall|n: int| 0 <= n < 81 ==> !parse_stop_at(f, n)
    &&& counts_plausible(f)
}

/// The last move the flags describe: the first flagged cell's subboard, in
/// the slots legality reads, or none.
pub open spec fn parsed_last(f: Seq<u8>) -> Option<(usize, usize, usize, usize)> {
    if exists|a: int| is_first_marker(f, a) {
        let a = choose|a: int| is_first_marker(f, a);
        Some((0usize, 0usize, (a / 27) as usize, ((a % 9) / 3) as usize))
    } else {
        None
    }
}

/// Distinct text positions land on distinct model cells.
#[verifier::spinoff_prover]
proof fn lemma_model_idx_injective(m: int, n: int)
    requires
        0 <= m < 81,
        0 <= n < 81,
        m != n,
    ensures
        model_idx_of_text(m) != model_idx_of_text(n),
{
    let mu = m as u8;
    let nu = n as u8;
    assert((mu < 81 && nu < 81 && mu != nu) ==> 27 * (mu / 27) + 9 * ((mu % 9) / 3) + 3 * ((mu
        % 27) / 9) + mu % 3 != 27 * (nu / 27) + 9 * ((nu % 9) / 3) + 3 * ((nu % 27) / 9) + nu
        % 3) by (bit_vector);
    assert(model_idx_of_text(m) == 27 * (mu / 27) + 9 * ((mu % 9) / 3) + 3 * ((mu % 27) / 9) + mu
        % 3);
    assert(model_idx_of_text(n) == 27 * (nu / 27) + 9 * ((nu % 9) / 3) + 3 * ((nu % 27) / 9) + nu
        % 3);
}

/// Only one position holds the first flag.
proof fn lemma_first_marker_unique(f: Seq<u8>, a: int, b: int)
    requires
        is_first_marker(f, a),
        is_first_marker(f, b),
    ensures
        a == b,
{
}

/// Store a parsed tile at the model cell of text position `n`, leaving the
/// tiles of all other text positions unchanged.
#[verifier::rlimit(100)]
#[verifier::spinoff_prover]
fn set_text_cell(tiles: &mut Vec<Tile>, n: usize, tile: Tile)
    requires
        old(tiles)@.len() == 81,
        n < 81,
    ensures
        final(tiles)@.len() == 81,
        final(tiles)@[model_idx_of_text(n as int)] == tile,
        forall|m: int|
            0 <= m < 81 && m != n ==> final(tiles)@[#[trigger] model_idx_of_text(m)] == old(
                tiles,
            )@[model_idx_of_text(m)],
{
    let i = n / 27;
    let k = (n % 27) / 9;
    let j = (n % 9) / 3;
    let l = n % 3;
    proof {
        vstd::arithmetic::div_mod::lemma_fundamental_div_mod(n as int, 27);
        vstd::arithmetic::div_mod::lemma_fundamental_div_mod((n % 27) as int, 9);
        vstd::arithmetic::div_mod::lemma_fundamental_div_mod((n % 27 % 9) as int, 3);
        vstd::arithmetic::div_mod::lemma_fundamental_div_mod(n as int, 9);
        vstd::arithmetic::div_mod::lemma_fundamental_div_mod((n % 9) as int, 3);
        crate::board::lemma_cell_index_coords(i as int, j as int, k as int, l as int);
        assert(model_idx_of_text(n as int) == cell_index(i as int, j as int, k as int, l as int));
        assert forall|m: int| 0 <= m < 81 && m != n implies #[trigger] model_idx_of_text(m)
            != model_idx_of_text(n as int) by {
            lemma_model_idx_injective(m, n as int);
        }
    }
    tiles.set(27 * i + 9 * j + 3 * k + l, tile);
}

/// A parsed board, or the reason the text was rejected.
pub struct BoardResult(Result<Board, String>);

impl BoardResult {
    /// The wrapped outcome, at the spec level.
    pub closed spec fn inner(self) -> Result<Board, String> {
        self.0
    }

    /// The wrapped outcome.
    pub fn into_inner(self) -> (r: Result<Board, String>)
        ensures
            r == self.inner(),
    {
        self.0
    }

    /// The board the text describes, or a message naming what is wrong
    /// with it.
    #[verifier::rlimit(100)]
    pub fn from_text(s: &str) -> (r: BoardResult)
        ensures
            ({
                let f = filtered(s.spec_bytes());
                &&& (r.inner() is Ok <==> parse_good(f))
                &&& (r.inner() matches Ok(b) ==> {
                    &&& b.wf()
                    &&& b@.cells.len() == 81
                    &&& forall|n: int|
                        0 <= n < 81 ==> b@.cells[#[trigger] model_idx_of_text(n)] == tile_of_byte(
                            f[n],
                        )
                    &&& b@.to_move == (if count_p1_bytes(f, 81) == count_p2_bytes(f, 81) {
                        Player::Player1
                    } else {
                        Player::Player2
                    })
                    &&& b@.last == parsed_last(f)
                })
                &&& (f.len() != 81 ==> (r.inner() matches Err(e) && e@
                    == "Invalid board string: wrong number of characters"@))
                &&& ((f.len() == 81 && (exists|n: int| parse_stop_at(f, n))) ==> (r.inner()
                    matches Err(e) && (exists|n: int|
                    {
                        &&& #[trigger] parse_stop_at(f, n)
                        &&& (forall|m: int| 0 <= m < n ==> !parse_stop_at(f, m))
                        &&& e@ == (if err_unclear_at(f, n) {
                            "Last move is unclear"@
                        } else {
                            "Invalid board string: unknown character"@
                        })
                    })))
                &&& ((f.len() == 81 && (forall|n: int| 0 <= n < 81 ==> !parse_stop_at(f, n))
                    && !counts_plausible(f)) ==> (r.inner() matches Err(e) && e@
                    == "Invalid board string: impossible number of x's or o's"@))
            }),
    {
        let bytes = s.as_bytes();
        let mut f: Vec<u8> = Vec::new();
        let mut bi: usize = 0;
        while bi < bytes.len()
            invariant
                bi <= bytes@.len(),
                bytes@ == s.spec_bytes(),
                f@ == filtered(bytes@.take(bi as int)),
            decreases bytes@.len() - bi,
        {
            proof {
                assert(bytes@.take(bi + 1).drop_last() =~= bytes@.take(bi as int));
                assert(bytes@.take(bi + 1).last() == bytes@[bi as int]);
            }
            let b = bytes[bi];
            if !(b == 32 || b == 9 || b == 10 || b == 13) {
                f.push(b);
            }
            bi = bi + 1;
        }
        proof {
            assert(bytes@.take(bytes@.len() as int) =~= bytes@);
        }
        if f.len() != 81 {
            return BoardResult(
                Err("Invalid board string: wrong number of characters".to_owned()),
            );
        }
        let mut tiles: Vec<Tile> = Vec::new();
        let mut ti: usize = 0;
        while ti < 81
            invariant
                ti <= 81,
                tiles@.len() == ti,
                forall|m: int| 0 <= m < ti ==> tiles@[m] == Tile::Empty,
            decreases 81 - ti,
        {
            tiles.push(Tile::Empty);
            ti = ti + 1;
        }
        let mut last: Option<(usize, usize, usize, usize)> = None;
        let mut x_count: usize = 0;
        let mut o_count: usize = 0;
        let mut n: usize = 0;
        while n < 81
            invariant
                n <= 81,
                f@ == filtered(s.spec_bytes()),
                f@.len() == 81,
                tiles@.len() == 81,
                x_count == count_p1_bytes(f@, n as int),
                o_count == count_p2_bytes(f@, n as int),
                x_count <= n,
                o_count <= n,
                forall|m: int| 0 <= m < n ==> !parse_stop_at(f@, m),
                match last {
                    None => forall|m: int| 0 <= m < n ==> !is_marker_byte(#[trigger] f@[m]),
                    Some((z0, z1, li, lj)) => z0 == 0 && z1 == 0 && li < 3 && lj < 3 && (exists|
                        a: int,
                    |
                        #[trigger] is_first_marker(f@, a) && a < n && marker_sub(a) == (
                        li as int,
                        lj as int,
                        )),
                },
                forall|m: int|
                    0 <= m < n ==> tiles@[#[trigger] model_idx_of_text(m)] == tile_of_byte(f@[m]),
            decreases 81 - n,
        {
            let b = f[n];
            let i = n / 27;
            let k = (n % 27) / 9;
            let j = (n % 9) / 3;
            let l = n % 3;
            proof {
                vstd::arithmetic::div_mod::lemma_fundamental_div_mod(n as int, 27);
                vstd::arithmetic::div_mod::lemma_fundamental_div_mod((n % 27) as int, 9);
                vstd::arithmetic::div_mod::lemma_fundamental_div_mod((n % 27 % 9) as int, 3);
                vstd::arithmetic::div_mod::lemma_fundamental_div_mod(n as int, 9);
                vstd::arithmetic::div_mod::lemma_fundamental_div_mod((n % 9) as int, 3);
                assert(marker_sub(n as int) == (i as int, j as int));
                assert(model_idx_of_text(n as int) == cell_index(
                    i as int,
                    j as int,
                    k as int,
                    l as int,
                ));
            }
            let is_up = b >= 65 && b <= 90;
            if is_up || b == 96 {
                match last {
                    Some((_, _, li, lj)) => {
                        if !(i == li && j == lj) {
                            proof {
                                assert(err_unclear_at(f@, n as int));
                                assert(parse_stop_at(f@, n as int));
                                assert(!parse_good(f@));
                            }
                            return BoardResult(Err("Last move is unclear".to_owned()));
                        }
                        proof {
                            assert(!err_unclear_at(f@, n as int)) by {
                                if err_unclear_at(f@, n as int) {
                                    let a = choose|a: int|
                                        #[trigger] is_first_marker(f@, a) && a < n && marker_sub(a)
                                            != marker_sub(n as int);
                                    let aw = choose|aw: int|
                                        #[trigger] is_first_marker(f@, aw) && aw < n && marker_sub(
                                            aw,
                                        ) == (li as int, lj as int);
                                    lemma_first_marker_unique(f@, a, aw);
                                }
                            }
                        }
                    },
                    None => {
                        proof {
                            assert(is_first_marker(f@, n as int));
                            assert(!err_unclear_at(f@, n as int));
                        }
                        last = Some((0, 0, i, j));
                    },
                }
            } else {
                proof {
                    assert(!err_unclear_at(f@, n as int));
                }
            }
            let c = if is_up {
                b + 32
            } else if b == 96 {
                46
            } else {
                b
            };
            let tile = match c {
                120 => {
                    x_count = x_count + 1;
                    Tile::Player1
                },
                111 => {
                    o_count = o_count + 1;
                    Tile::Player2
                },
                46 => Tile::Empty,
                _ => {
                    proof {
                        assert(err_unknown_at(f@, n as int));
                        assert(parse_stop_at(f@, n as int));
                        assert(!err_unclear_at(f@, n as int));
                        assert(!parse_good(f@));
                    }
                    return BoardResult(
                        Err("Invalid board string: unknown character".to_owned()),
                    );
                },
            };
            proof {
                assert(!parse_stop_at(f@, n as int));
            }
            set_text_cell(&mut tiles, n, tile);
            n = n + 1;
        }
        if x_count < o_count || x_count > o_count + 1 {
            return BoardResult(
                Err("Invalid board string: impossible number of x's or o's".to_owned()),
            );
        }
        let player_to_move = if x_count == o_count {
            Player::Player1
        } else {
            Player::Player2
        };
        let board = Board::from_parts(tiles, player_to_move, last);
        proof {
            match last {
                None => {
                    assert(!(exists|a: int| is_first_marker(f@, a)));
                },
                Some((z0, z1, li, lj)) => {
                    let aw = choose|a: int|
                        #[trigger] is_first_marker(f@, a) && a < 81 && marker_sub(a) == (
                        li as int,
                        lj as int,
                        );
                    let ac = choose|a: int| is_first_marker(f@, a);
                    lemma_first_marker_unique(f@, ac, aw);
                },
            }
        }
        BoardResult(Ok(board))
    }
}

} // verus!

verus! {

/// The character of one cell in the text form: lowercase (or a dot)
/// normally, uppercase (or a backtick) when the cell lies in the subboard
/// the last move forces.
pub open spec fn render_cell(m: BoardModel, i: int, j: int, k: int, l: int) -> Seq<char> {
    let t = m.cell(i, j, k, l);
    let marked = match m.last {
        Some((_, _, y, x)) => i == y && j == x,
        None => false,
    };
    if marked {
        match t {
            Tile::Empty => seq!['`'],
            Tile::Player1 => seq!['X'],
            Tile::Player2 => seq!['O'],
        }
    } else {
        match t {
            Tile::Empty => seq!['.'],
            Tile::Player1 => seq!['x'],
            Tile::Player2 => seq!['o'],
        }
    }
}

/// One subboard's slice of a text row: three cells and a space.
pub open spec fn render_group(m: BoardModel, i: int, k: int, j: int) -> Seq<char> {
    render_cell(m, i, j, k, 0) + render_cell(m, i, j, k, 1) + render_cell(m, i, j, k, 2) + seq![' ']
}

/// One full row of the 9x9 grid: three groups and a newline.
pub open spec fn render_line(m: BoardModel, i: int, k: int) -> Seq<char> {
    render_group(m, i, k, 0) + render_group(m, i, k, 1) + render_group(m, i, k, 2) + seq!['\n']
}

/// One row of subboards: three rows of the grid and a blank line.
pub open spec fn render_block(m: BoardModel, i: int) -> Seq<char> {
    render_line(m, i, 0) + render_line(m, i, 1) + render_line(m, i, 2) + seq!['\n']
}

/// The whole board in its text form.
pub open spec fn render(m: BoardModel) -> Seq<char> {
    render_block(m, 0) + render_block(m, 1) + render_block(m, 2)
}

impl Board {
    /// The text character of one cell.
    fn cell_str(&self, i: usize, j: usize, k: usize, l: usize) -> (r: &'static str)
        requires
            self.wf(),
            i < 3,
            j < 3,
            k < 3,
            l < 3,
        ensures
            r@ == render_cell(self@, i as int, j as int, k as int, l as int),
    {
        let marked = match self.get_last_move() {
            Some((_, _, y, x)) => i == y && j == x,
            None => false,
        };
        let t = self.cell_at(i, j, k, l);
        proof {
            reveal_strlit("`");
            reveal_strlit("X");
            reveal_strlit("O");
            reveal_strlit(".");
            reveal_strlit("x");
            reveal_strlit("o");
        }
        let r = if marked {
            match t {
                Tile::Empty => "`",
                Tile::Player1 => "X",
                Tile::Player2 => "O",
            }
        } else {
            match t {
                Tile::Empty => ".",
                Tile::Player1 => "x",
                Tile::Player2 => "o",
            }
        };
        proof {
            assert(r@ =~= render_cell(self@, i as int, j as int, k as int, l as int));
        }
        r
    }

    /// Append one subboard's slice of a text row.
    fn push_group(&self, s: &mut String, i: usize, k: usize, j: usize)
        requires
            self.wf(),
            i < 3,
            k < 3,
            j < 3,
        ensures
            final(s)@ == old(s)@ + render_group(self@, i as int, k as int, j as int),
    {
        s.append(self.cell_str(i, j, k, 0));
        s.append(self.cell_str(i, j, k, 1));
        s.append(self.cell_str(i, j, k, 2));
        s.append(" ");
        proof {
            reveal_strlit(" ");
            assert(s@ =~= old(s)@ + render_group(self@, i as int, k as int, j as int));
        }
    }

    /// Append one full row of the grid.
    fn push_line(&self, s: &mut String, i: usize, k: usize)
        requires
            self.wf(),
            i < 3,
            k < 3,
        ensures
            final(s)@ == old(s)@ + render_line(self@, i as int, k as int),
    {
        self.push_group(s, i, k, 0);
        self.push_group(s, i, k, 1);
        self.push_group(s, i, k, 2);
        s.append("\n");
        proof {
            reveal_strlit("\n");
            assert(s@ =~= old(s)@ + render_line(self@, i as int, k as int));
        }
    }

    /// Append one row of subboards.
    #[verifier::rlimit(100)]
    #[verifier::spinoff_prover]
    fn push_block(&self, s: &mut String, i: usize)
        requires
            self.wf(),
            i < 3,
        ensures
            final(s)@ == old(s)@ + render_block(self@, i as int),
    {
        self.push_line(s, i, 0);
        self.push_line(s, i, 1);
        self.push_line(s, i, 2);
        s.append("\n");
        proof {
            reveal_strlit("\n");
            assert(s@ =~= old(s)@ + render_block(self@, i as int));
        }
    }

    /// The board in its text form: nine rows of cell characters in blocks
    /// of three, uppercase marks or backticks flagging the subboard the
    /// last move forces.
    #[verifier::rlimit(100)]
    pub fn to_text(&self) -> (r: String)
        requires
            self.wf(),
        ensures
            r@ == render(self@),
    {
        let mut s = String::new();
        self.push_block(&mut s, 0);
        self.push_block(&mut s, 1);
        self.push_block(&mut s, 2);
        proof {
            assert(s@ =~= render(self@));
        }
        s
    }
}

} // verus!
