//! The packed Connect Four position.
//!
//! Each player owns a 64-bit mask. Column `c` occupies bits `7 * c` to
//! `7 * c + 6`; the six low bits of a lane are the playable rows and the top
//! bit is padding, so that four in a row in any direction is a fixed shift.
use vstd::prelude::*;

verus! {

/// Number of columns on the board.
pub const COLUMNS: u8 = 7;

/// Number of playable rows in a column.
pub const ROWS: u8 = 6;

/// The bits that sit just above the playable rows of each column.
pub const TOP_ROW: u64 = 0b1000000_1000000_1000000_1000000_1000000_1000000_1000000;

/// The abstract state of a position: both masks, the next free bit of each
/// column, the move counter and the columns played so far.
pub struct BoardView {
    pub masks: Seq<u64>,
    pub heights: Seq<u8>,
    pub counter: u8,
    pub moves: Seq<u8>,
}

/// The position before any move.
pub open spec fn empty_view() -> BoardView {
    BoardView {
        masks: seq![0u64, 0u64],
        heights: seq![0u8, 7u8, 14u8, 21u8, 28u8, 35u8, 42u8],
        counter: 0,
        moves: Seq::empty(),
    }
}

/// The single bit of cell `h` of the packed layout.
pub open spec fn cell(h: u8) -> u64 {
    1u64 << (h as u64)
}

/// Four set bits of `m` at distance `d` from each other.
pub open spec fn has_line(m: u64, d: u64) -> bool {
    m & (m >> d) & (m >> (2 * d) as u64) & (m >> (3 * d) as u64) != 0
}

/// Four in a row in `m`: diagonally (shifts 6 and 8), horizontally (shift 7)
/// or vertically (shift 1).
pub open spec fn has_four(m: u64) -> bool {
    has_line(m, 6) || has_line(m, 8) || has_line(m, 7) || has_line(m, 1)
}

/// How many times column `c` occurs in `moves`.
pub open spec fn count_col(moves: Seq<u8>, c: u8) -> nat
    decreases moves.len(),
{
    if moves.len() == 0 {
        0
    } else {
        count_col(moves.drop_last(), c) + if moves.last() == c { 1nat } else { 0nat }
    }
}

/// A sequence of columns that can be played from the empty board.
pub open spec fn legal_history(moves: Seq<u8>) -> bool {
    &&& forall|i: int| 0 <= i < moves.len() ==> moves[i] < COLUMNS
    &&& forall|c: u8| c < COLUMNS ==> count_col(moves, c) <= ROWS
}

impl BoardView {
    /// Index of the player on move: 0 after an even number of moves.
    pub open spec fn to_move(self) -> int {
        self.counter as int % 2
    }

    /// Whether column `c` can still take a piece.
    pub open spec fn is_open(self, c: u8) -> bool {
        self.heights[c as int] < 7 * c + ROWS
    }

    /// The position after the player on move drops a piece into `col`.
    pub open spec fn apply(self, col: u8) -> BoardView {
        let h = self.heights[col as int];
        let p = self.to_move();
        BoardView {
            masks: self.masks.update(p, self.masks[p] ^ cell(h)),
            heights: self.heights.update(col as int, (h + 1) as u8),
            counter: (self.counter + 1) as u8,
            moves: self.moves.push(col),
        }
    }

    /// The position with the last move taken back.
    pub open spec fn undo(self) -> BoardView {
        let counter = (self.counter - 1) as u8;
        let col = self.moves.last();
        let h = (self.heights[col as int] - 1) as u8;
        let p = counter as int % 2;
        BoardView {
            masks: self.masks.update(p, self.masks[p] ^ cell(h)),
            heights: self.heights.update(col as int, h),
            counter,
            moves: self.moves.drop_last(),
        }
    }

    /// The open columns among `0..n`, in ascending order.
    pub open spec fn open_upto(self, n: u8) -> Seq<u8>
        decreases n,
    {
        if n == 0 {
            Seq::empty()
        } else {
            let rest = self.open_upto((n - 1) as u8);
            if self.is_open((n - 1) as u8) {
                rest.push((n - 1) as u8)
            } else {
                rest
            }
        }
    }

    /// The legal moves of the position.
    pub open spec fn legal_moves(self) -> Seq<u8> {
        self.open_upto(COLUMNS)
    }

    /// How many of the columns `0..n` are full.
    pub open spec fn full_upto(self, n: u8) -> nat
        decreases n,
    {
        if n == 0 {
            0
        } else {
            self.full_upto((n - 1) as u8) + if self.is_open((n - 1) as u8) { 0nat } else { 1nat }
        }
    }

    /// Whether player `side` has four in a row.
    pub open spec fn wins(self, side: int) -> bool {
        has_four(self.masks[side])
    }
}

/// The position reached by playing `moves` from the empty board.
pub open spec fn replay(moves: Seq<u8>) -> BoardView
    decreases moves.len(),
{
    if moves.len() == 0 {
        empty_view()
    } else {
        replay(moves.drop_last()).apply(moves.last())
    }
}

pub proof fn lemma_count_push(moves: Seq<u8>, x: u8, c: u8)
    ensures
        count_col(moves.push(x), c) == count_col(moves, c) + if x == c { 1nat } else { 0nat },
{
    assert(moves.push(x).drop_last() =~= moves);
}

pub proof fn lemma_legal_prefix(moves: Seq<u8>)
    requires
        legal_history(moves),
        moves.len() > 0,
    ensures
        legal_history(moves.drop_last()),
        count_col(moves.drop_last(), moves.last()) < ROWS,
{
    let m = moves.drop_last();
    assert forall|c: u8| c < COLUMNS implies count_col(m, c) <= ROWS by {
        assert(count_col(moves, c) >= count_col(m, c));
    }
    assert(moves[moves.len() - 1] < COLUMNS);
    assert(count_col(moves, moves.last()) <= ROWS);
}

/// The shape of a replayed position: its fields follow from the history.
pub proof fn lemma_replay(moves: Seq<u8>)
    requires
        legal_history(moves),
    ensures
        replay(moves).masks.len() == 2,
        replay(moves).heights.len() == 7,
        replay(moves).counter == moves.len(),
        replay(moves).moves == moves,
        forall|c: u8| c < COLUMNS ==> replay(moves).heights[c as int] == 7 * c + count_col(moves, c),
    decreases moves.len(),
{
    if moves.len() > 0 {
        let m = moves.drop_last();
        lemma_legal_prefix(moves);
        lemma_replay(m);
        assert(m.push(moves.last()) =~= moves);
        lemma_history_len(m);
    }
}

/// A legal history holds at most one move per cell.
pub proof fn lemma_history_len(moves: Seq<u8>)
    requires
        legal_history(moves),
    ensures
        moves.len() == count_col(moves, 0) + count_col(moves, 1) + count_col(moves, 2)
            + count_col(moves, 3) + count_col(moves, 4) + count_col(moves, 5) + count_col(moves, 6),
        moves.len() <= 42,
    decreases moves.len(),
{
    if moves.len() > 0 {
        lemma_legal_prefix(moves);
        lemma_history_len(moves.drop_last());
    }
}

/// The player who made move `k` (counting from 1) of a continuation of `v`.
pub open spec fn mover(v: BoardView, k: int) -> int {
    (v.counter + k - 1) % 2
}

/// `s` is a finished playout from `v`: legal moves, none of which but the
/// last leaves the player who made it with four in a row, ending with a win
/// for the player who moved last or on a board without legal moves.
pub open spec fn is_playout(v: BoardView, s: Seq<u8>) -> bool {
    &&& legal_history(v.moves + s)
    &&& forall|k: int|
        0 < k < s.len() ==> !#[trigger] replay(v.moves + s.take(k)).wins(mover(v, k))
    &&& (s.len() > 0 && replay(v.moves + s).wins(mover(v, s.len() as int)))
        || replay(v.moves + s).legal_moves().len() == 0
}

/// The playout `s` from `v` ended in a win for the player on move at `v`.
pub open spec fn playout_won(v: BoardView, s: Seq<u8>) -> bool {
    s.len() > 0 && mover(v, s.len() as int) == v.to_move() && replay(v.moves + s).wins(
        v.to_move(),
    )
}

/// Taking back a move just played restores every field of the position:
/// both masks, the heights, the counter and the history.
pub proof fn lemma_undo_after_apply(moves: Seq<u8>, col: u8)
    requires
        legal_history(moves),
        col < COLUMNS,
        replay(moves).is_open(col),
    ensures
        legal_history(moves.push(col)),
        replay(moves).apply(col).undo() == replay(moves),
{
    lemma_replay(moves);
    lemma_history_len(moves);
    let v = replay(moves);
    let w = v.apply(col).undo();
    assert forall|c: u8| c < COLUMNS implies count_col(moves.push(col), c) <= ROWS by {
        lemma_count_push(moves, col, c);
    }
    let x = v.masks[v.to_move()];
    let b = cell(v.heights[col as int]);
    assert(x ^ b ^ b == x) by (bit_vector);
    assert(w.masks =~= v.masks);
    assert(w.heights =~= v.heights);
    assert(w.moves =~= v.moves);
}

/// What the legal moves of a position are, column by column.
pub proof fn lemma_open_upto(v: BoardView, n: u8)
    requires
        n <= COLUMNS,
    ensures
        forall|i: int| 0 <= i < v.open_upto(n).len() ==> #[trigger] v.open_upto(n)[i] < n
            && v.is_open(v.open_upto(n)[i]),
        forall|i: int, j: int|
            0 <= i < j < v.open_upto(n).len() ==> v.open_upto(n)[i] < v.open_upto(n)[j],
        forall|c: u8| c < n && v.is_open(c) ==> v.open_upto(n).contains(c),
        v.open_upto(n).len() == n - v.full_upto(n),
    decreases n,
{
    if n > 0 {
        let k = (n - 1) as u8;
        lemma_open_upto(v, k);
        let rest = v.open_upto(k);
        assert forall|c: u8| c < n && v.is_open(c) implies v.open_upto(n).contains(c) by {
            if c < k {
                let i = choose|i: int| 0 <= i < rest.len() && rest[i] == c;
                assert(v.open_upto(n)[i] == c);
            } else {
                assert(v.open_upto(n)[rest.len() as int] == c);
            }
        }
    }
}

/// Relies on fastrand::usize: a number drawn from the range `0..n`, which
/// must not be empty.
#[verifier::external_body]
fn random_below(n: usize) -> (r: usize)
    requires
        n > 0,
    ensures
        r < n,
{
    fastrand::usize(0..n)
}

/// The top-row test on the packed layout finds exactly the full columns.
proof fn lemma_top_row(c: u64, h: u64)
    requires
        c < 7,
        7 * c <= h <= 7 * c + 6,
    ensures
        (TOP_ROW & (1u64 << h) == 0) == (h != 7 * c + 6),
{
    assert((TOP_ROW & (1u64 << h) == 0) == (h != 7 * c + 6)) by (bit_vector)
        requires
            c < 7,
            7 * c <= h <= 7 * c + 6,
    ;
}

/// A Connect Four position.
#[derive(Debug)]
pub struct Board {
    bitboards: [u64; 2],
    heights: [u8; 7],
    counter: u8,
    moves: Vec<u8>,
}

impl View for Board {
    type V = BoardView;

    closed spec fn view(&self) -> BoardView {
        BoardView {
            masks: self.bitboards@,
            heights: self.heights@,
            counter: self.counter,
            moves: self.moves@,
        }
    }
}

impl Clone for Board {
    fn clone(&self) -> (r: Self)
        ensures
            r@ == self@,
    {
        Board {
            bitboards: self.bitboards,
            heights: self.heights,
            counter: self.counter,
            moves: self.moves.clone(),
        }
    }
}

impl Board {
    /// Every field is the one reached by replaying the history of a legal game.
    pub open spec fn wf(&self) -> bool {
        &&& legal_history(self@.moves)
        &&& self@ == replay(self@.moves)
    }

    /// Whether `col` is a column that can take a piece.
    pub open spec fn can_play(&self, col: u8) -> bool {
        col < COLUMNS && self@.is_open(col)
    }

    pub fn new() -> (r: Self)
        ensures
            r.wf(),
            r@ == empty_view(),
    {
        let r = Board {
            bitboards: [0, 0],
            heights: [0, 7, 14, 21, 28, 35, 42],
            counter: 0,
            moves: Vec::new(),
        };
        assert(r@.masks =~= empty_view().masks);
        assert(r@.heights =~= empty_view().heights);
        assert(r@.moves =~= Seq::<u8>::empty());
        r
    }

    /// Drops a piece of the player on move into `col`.
    pub fn make_move(&mut self, col: u8)
        requires
            old(self).wf(),
            old(self).can_play(col),
        ensures
            final(self).wf(),
            final(self)@ == old(self)@.apply(col),
    {
        proof {
            lemma_replay(self@.moves);
            lemma_history_len(self@.moves);
        }
        let ghost before = self@;
        let h = self.heights[col as usize];
        let cmove: u64 = 1u64 << (h as u64);
        self.heights[col as usize] = h + 1;
        let p: usize = (self.counter % 2) as usize;
        self.bitboards[p] = self.bitboards[p] ^ cmove;
        self.moves.push(col);
        self.counter = self.counter + 1;
        proof {
            let m = self@.moves;
            assert(m.drop_last() =~= before.moves);
            assert(self@.masks =~= before.apply(col).masks);
            assert(self@.heights =~= before.apply(col).heights);
            assert forall|c: u8| c < COLUMNS implies count_col(m, c) <= ROWS by {
                lemma_count_push(before.moves, col, c);
            }
        }
    }

    /// Whether player `side` (0 or 1) has four in a row.
    pub fn is_win(&self, side: usize) -> (r: bool)
        requires
            side < 2,
        ensures
            r == has_four(self@.masks[side as int]),
    {
        let m = self.bitboards[side];
        if m & (m >> 6u64) & (m >> 12u64) & (m >> 18u64) != 0 {
            return true;
        }
        if m & (m >> 8u64) & (m >> 16u64) & (m >> 24u64) != 0 {
            return true;
        }
        if m & (m >> 7u64) & (m >> 14u64) & (m >> 21u64) != 0 {
            return true;
        }
        if m & (m >> 1u64) & (m >> 2u64) & (m >> 3u64) != 0 {
            return true;
        }
        false
    }

    /// The columns that can take a piece, in ascending order.
    pub fn list_moves(&self) -> (r: Vec<u8>)
        requires
            self.wf(),
        ensures
            r@ == self@.legal_moves(),
    {
        proof {
            lemma_replay(self@.moves);
        }
        let mut moves: Vec<u8> = Vec::new();
        let mut col: u8 = 0;
        while col < COLUMNS
            invariant
                col <= COLUMNS,
                self.wf(),
                self@.heights.len() == 7,
                forall|c: u8| c < COLUMNS ==> 7 * c <= #[trigger] self@.heights[c as int] <= 7 * c + ROWS,
                moves@ == self@.open_upto(col),
            decreases COLUMNS - col,
        {
            let h = self.heights[col as usize];
            proof {
                lemma_top_row(col as u64, h as u64);
            }
            if TOP_ROW & (1u64 << (h as u64)) == 0 {
                moves.push(col);
            }
            col = col + 1;
        }
        moves
    }

    /// Plays the legal move at place `draw` of the list of legal moves and
    /// tells whether the player who made it now has four in a row.
    pub fn playout_step(&mut self, draw: usize) -> (won: bool)
        requires
            old(self).wf(),
            draw < old(self)@.legal_moves().len(),
        ensures
            final(self).wf(),
            final(self)@ == old(self)@.apply(old(self)@.legal_moves()[draw as int]),
            final(self)@.moves == old(self)@.moves.push(old(self)@.legal_moves()[draw as int]),
            won == final(self)@.wins(old(self)@.to_move()),
    {
        let moves = self.list_moves();
        let mv = moves[draw];
        proof {
            lemma_open_upto(self@, COLUMNS);
            assert(moves@[draw as int] < COLUMNS);
            lemma_replay(self@.moves);
            lemma_history_len(self@.moves);
        }
        let side: usize = (self.counter % 2) as usize;
        self.make_move(mv);
        self.is_win(side)
    }

    /// Plays random legal moves until the player who just moved has four in
    /// a row or no move is left, then takes all of them back. Returns whether
    /// the game was won by the player on move at the start.
    pub fn simulate_random_game(&mut self) -> (r: bool)
        requires
            old(self).wf(),
        ensures
            final(self)@ == old(self)@,
            final(self).wf(),
            exists|s: Seq<u8>| #[trigger] is_playout(old(self)@, s) && r == playout_won(old(self)@, s),
    {
        let ghost start = self@;
        proof {
            lemma_replay(start.moves);
            lemma_history_len(start.moves);
            assert(start.moves + Seq::<u8>::empty() =~= start.moves);
        }
        let first: u8 = self.counter % 2;
        let mut made: Vec<u8> = Vec::new();
        let mut won = false;
        loop
            invariant_except_break
                !won,
            invariant
                self.wf(),
                self@.moves == start.moves + made@,
                self@ == replay(start.moves + made@),
                legal_history(start.moves + made@),
                start.moves.len() + made@.len() <= 42,
                start.counter == start.moves.len(),
                forall|k: int|
                    0 < k < made@.len() ==> !#[trigger] replay(start.moves + made@.take(k)).wins(
                        mover(start, k),
                    ),
                made@.len() > 0 && !won ==> !self@.wins(mover(start, made@.len() as int)),
                won ==> made@.len() > 0 && self@.wins(mover(start, made@.len() as int)),
            ensures
                !won ==> self@.legal_moves().len() == 0,
            decreases 42 - made@.len(),
        {
            let n = self.list_moves().len();
            if n == 0 {
                break;
            }
            let draw = random_below(n);
            let ghost before = made@;
            proof {
                lemma_replay(self@.moves);
            }
            let ghost side = self@.to_move();
            let step_won = self.playout_step(draw);
            made.push(self.moves[self.moves.len() - 1]);
            proof {
                assert(self@.moves =~= start.moves + made@);
                lemma_replay(self@.moves);
                lemma_history_len(self@.moves);
                assert(side == mover(start, made@.len() as int));
                assert forall|k: int| 0 < k < made@.len() implies !#[trigger] replay(
                    start.moves + made@.take(k),
                ).wins(mover(start, k)) by {
                    if k < before.len() {
                        assert(made@.take(k) =~= before.take(k));
                    } else {
                        assert(made@.take(k) =~= before);
                    }
                }
            }
            if step_won {
                won = true;
                break;
            }
        }
        let ghost played = made@;
        let ghost end = self@;
        proof {
            lemma_replay(end.moves);
        }
        let winner: u8 = (self.counter - 1) % 2;
        while made.len() > 0
            invariant
                self.wf(),
                self@.moves == start.moves + made@,
            decreases made@.len(),
        {
            made.pop();
            self.undo_move();
            proof {
                assert(self@.moves =~= start.moves + made@);
            }
        }
        proof {
            assert(self@.moves =~= start.moves);
            assert(is_playout(start, played));
            if won {
                assert(winner as int == mover(start, played.len() as int));
            }
        }
        won && winner == first
    }

    /// The player whose piece fills row `row` of column `col`, counting rows
    /// from the bottom, or `None` for an empty cell.
    pub fn cell_owner(&self, row: u8, col: u8) -> (r: Option<usize>)
        requires
            row < ROWS,
            col < COLUMNS,
        ensures
            r == if self@.masks[0] & cell((row + 7 * col) as u8) != 0 {
                Some(0usize)
            } else if self@.masks[1] & cell((row + 7 * col) as u8) != 0 {
                Some(1usize)
            } else {
                None
            },
    {
        let bit: u64 = 1u64 << ((row + 7 * col) as u64);
        if self.bitboards[0] & bit != 0 {
            Some(0)
        } else if self.bitboards[1] & bit != 0 {
            Some(1)
        } else {
            None
        }
    }

    /// How many pieces column `col` holds.
    pub fn column_height(&self, col: u8) -> (r: u8)
        requires
            self.wf(),
            col < COLUMNS,
        ensures
            r == count_col(self@.moves, col),
    {
        proof {
            lemma_replay(self@.moves);
        }
        self.heights[col as usize] - 7 * col
    }

    /// How many moves were played.
    pub fn move_count(&self) -> (r: u8)
        requires
            self.wf(),
        ensures
            r == self@.moves.len(),
    {
        proof {
            lemma_replay(self@.moves);
        }
        self.counter
    }

    /// Takes back the last move.
    pub fn undo_move(&mut self)
        requires
            old(self).wf(),
            old(self)@.moves.len() > 0,
        ensures
            final(self).wf(),
            final(self)@ == old(self)@.undo(),
            final(self)@ == replay(old(self)@.moves.drop_last()),
    {
        proof {
            lemma_replay(self@.moves);
            lemma_legal_prefix(self@.moves);
            lemma_replay(self@.moves.drop_last());
        }
        let ghost before = self@;
        let ghost prev = replay(before.moves.drop_last());
        self.counter = self.counter - 1;
        let col = self.moves[self.counter as usize];
        let h = self.heights[col as usize] - 1;
        self.heights[col as usize] = h;
        let cmove: u64 = 1u64 << (h as u64);
        let p: usize = (self.counter % 2) as usize;
        self.bitboards[p] = self.bitboards[p] ^ cmove;
        self.moves.pop();
        proof {
            let col = before.moves.last();
            let h = prev.heights[col as int];
            let x = prev.masks[prev.to_move()];
            assert(x ^ cell(h) ^ cell(h) == x) by (bit_vector);
            assert(self@.masks =~= before.undo().masks);
            assert(self@.heights =~= before.undo().heights);
            assert(self@.masks =~= prev.masks);
            assert(self@.heights =~= prev.heights);
        }
    }
}

} // verus!
