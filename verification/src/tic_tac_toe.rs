//! Noughts and crosses on a board of three by three cells.

use crate::board::{cells, Board, CROSS, EMPTY, NOUGHT};
use crate::game::{Conclusion, GameState, PlayerEnum};
use vstd::prelude::*;

verus! {

/// A piece of one of the two sides.
#[derive(Clone, Copy, Debug, PartialEq, Eq, Structural)]
pub enum Piece {
    Nought,
    Cross,
}

impl Piece {
    /// The code of the piece on the board.
    pub open spec fn code(self) -> u8 {
        match self {
            Piece::Nought => NOUGHT,
            Piece::Cross => CROSS,
        }
    }

    /// The piece that `player` places: side one has the crosses.
    pub open spec fn of(player: PlayerEnum) -> Piece {
        match player {
            PlayerEnum::One => Piece::Cross,
            PlayerEnum::Two => Piece::Nought,
        }
    }

    /// The code of the piece on the board.
    pub fn to_code(self) -> (code: u8)
        ensures
            code == self.code(),
    {
        match self {
            Piece::Nought => NOUGHT,
            Piece::Cross => CROSS,
        }
    }
}

impl From<PlayerEnum> for Piece {
    fn from(player: PlayerEnum) -> (piece: Self) {
        match player {
            PlayerEnum::One => Piece::Cross,
            PlayerEnum::Two => Piece::Nought,
        }
    }
}

impl vstd::std_specs::convert::FromSpecImpl<PlayerEnum> for Piece {
    open spec fn obeys_from_spec() -> bool {
        true
    }

    open spec fn from_spec(player: PlayerEnum) -> Self {
        Piece::of(player)
    }
}

/// What a cell of the board holds: a piece, or nothing.
#[derive(Clone, Copy, Debug, PartialEq, Eq, Structural)]
pub struct OptionalPiece(Option<Piece>);

impl From<Option<Piece>> for OptionalPiece {
    fn from(t: Option<Piece>) -> (held: Self) {
        OptionalPiece(t)
    }
}

impl vstd::std_specs::convert::FromSpecImpl<Option<Piece>> for OptionalPiece {
    open spec fn obeys_from_spec() -> bool {
        true
    }

    open spec fn from_spec(t: Option<Piece>) -> Self {
        OptionalPiece::holding(t)
    }
}

impl std::ops::Deref for OptionalPiece {
    type Target = Option<Piece>;

    fn deref(&self) -> (held: &Option<Piece>)
        ensures
            *held == self.held(),
    {
        &self.0
    }
}

impl OptionalPiece {
    /// The piece, if the cell holds one.
    pub closed spec fn held(self) -> Option<Piece> {
        self.0
    }

    /// The cell that holds `piece`, or nothing.
    pub closed spec fn holding(piece: Option<Piece>) -> OptionalPiece {
        OptionalPiece(piece)
    }

    /// A cell is what it holds.
    pub proof fn holding_held(piece: Option<Piece>)
        ensures
            OptionalPiece::holding(piece).held() == piece,
    {
    }

    /// The code of the cell's content on the board.
    pub open spec fn code(self) -> u8 {
        match self.held() {
            Some(piece) => piece.code(),
            None => EMPTY,
        }
    }

    /// The content that a code of the board stands for; any code but those
    /// of the two pieces stands for an empty cell.
    pub open spec fn of_code(code: u8) -> OptionalPiece {
        if code == NOUGHT {
            OptionalPiece::holding(Some(Piece::Nought))
        } else if code == CROSS {
            OptionalPiece::holding(Some(Piece::Cross))
        } else {
            OptionalPiece::holding(None)
        }
    }

    /// The code of the cell's content on the board.
    pub fn to_code(self) -> (code: u8)
        ensures
            code == self.code(),
    {
        match self.0 {
            Some(piece) => piece.to_code(),
            None => EMPTY,
        }
    }

    /// The content that a code of the board stands for.
    pub fn from_code(code: u8) -> (held: OptionalPiece)
        ensures
            held == OptionalPiece::of_code(code),
    {
        if code == NOUGHT {
            OptionalPiece(Some(Piece::Nought))
        } else if code == CROSS {
            OptionalPiece(Some(Piece::Cross))
        } else {
            OptionalPiece(None)
        }
    }

    /// The text that shows the content: `O`, `X`, or `_` for an empty cell.
    pub fn to_text(&self) -> (text: String)
        ensures
            text@ == match self.held() {
                Some(Piece::Nought) => "O"@,
                Some(Piece::Cross) => "X"@,
                None => "_"@,
            },
    {
        match self.0 {
            Some(Piece::Nought) => "O".to_string(),
            Some(Piece::Cross) => "X".to_string(),
            None => "_".to_string(),
        }
    }
}

/// Nine cells, each with one of the three codes.
pub open spec fn valid(board: Seq<u8>) -> bool {
    &&& board.len() == 9
    &&& forall|i: int| 0 <= i < 9 ==> #[trigger] board[i] < 3
}

/// The number that writes `board` in base three, the first cell the lowest
/// digit.
pub open spec fn encode(board: Seq<u8>) -> nat
    decreases board.len(),
{
    if board.len() == 0 {
        0
    } else {
        board[0] as nat + 3 * encode(board.drop_first())
    }
}

/// The `n` lowest digits of `key` in base three, the lowest first.
pub open spec fn decode(key: nat, n: nat) -> Seq<u8>
    decreases n,
{
    if n == 0 {
        Seq::empty()
    } else {
        seq![(key % 3) as u8] + decode(key / 3, (n - 1) as nat)
    }
}

/// The board that the content address `key` stands for.
pub open spec fn board_of(key: u64) -> Seq<u8> {
    decode(key as nat, 9)
}

/// Three to the power `n`.
pub open spec fn pow3(n: nat) -> nat
    decreases n,
{
    if n == 0 {
        1
    } else {
        3 * pow3((n - 1) as nat)
    }
}

/// Decoding gives as many digits as asked for, each a digit of base three.
pub proof fn decode_is_digits(key: nat, n: nat)
    ensures
        decode(key, n).len() == n,
        forall|i: int| 0 <= i < n ==> #[trigger] decode(key, n)[i] < 3,
    decreases n,
{
    if n > 0 {
        decode_is_digits(key / 3, (n - 1) as nat);
        let rest = decode(key / 3, (n - 1) as nat);
        assert forall|i: int| 0 <= i < n implies #[trigger] decode(key, n)[i] < 3 by {
            if i > 0 {
                assert(decode(key, n)[i] == rest[i - 1]);
            }
        }
    }
}

/// Decoding undoes encoding, and a board of `n` cells encodes below three to
/// the `n`.
pub proof fn decode_encode(board: Seq<u8>)
    requires
        forall|i: int| 0 <= i < board.len() ==> #[trigger] board[i] < 3,
    ensures
        decode(encode(board), board.len()) == board,
        encode(board) < pow3(board.len()),
    decreases board.len(),
{
    if board.len() > 0 {
        let rest = board.drop_first();
        assert forall|i: int| 0 <= i < rest.len() implies #[trigger] rest[i] < 3 by {
            assert(rest[i] == board[i + 1]);
        }
        decode_encode(rest);
        let key = encode(board);
        assert(board[0] < 3);
        assert(key % 3 == board[0] as nat);
        assert(key / 3 == encode(rest));
        assert(decode(key, board.len()) =~= board);
    } else {
        assert(decode(encode(board), board.len()) =~= board);
    }
}

/// Boards with the same address are the same board: the address identifies
/// the position.
pub proof fn address_identifies_board(one: Seq<u8>, other: Seq<u8>)
    requires
        valid(one),
        valid(other),
        encode(one) == encode(other),
    ensures
        one == other,
{
    decode_encode(one);
    decode_encode(other);
}

/// The number of cells of `board` that hold `code`.
pub open spec fn count(board: Seq<u8>, code: u8) -> nat
    decreases board.len(),
{
    if board.len() == 0 {
        0
    } else {
        count(board.drop_last(), code) + if board.last() == code {
            1nat
        } else {
            0nat
        }
    }
}

/// A count is at most the number of cells; one cell that holds the code
/// makes it positive, and it is positive only if some cell holds the code.
pub proof fn count_bounds(board: Seq<u8>, code: u8)
    ensures
        count(board, code) <= board.len(),
        count(board, code) > 0 <==> exists|i: int| 0 <= i < board.len() && board[i] == code,
    decreases board.len(),
{
    if board.len() > 0 {
        let init = board.drop_last();
        count_bounds(init, code);
        if count(board, code) > 0 {
            if board.last() == code {
                assert(board[board.len() - 1] == code);
            } else {
                let i = choose|i: int| 0 <= i < init.len() && init[i] == code;
                assert(board[i] == code);
            }
        }
        if exists|i: int| 0 <= i < board.len() && board[i] == code {
            let i = choose|i: int| 0 <= i < board.len() && board[i] == code;
            if i < init.len() {
                assert(init[i] == code);
            }
        }
    }
}

/// Writing a cell takes one from the count of what it held and adds one to
/// the count of what it holds now.
pub proof fn count_update(board: Seq<u8>, at: int, code: u8, of: u8)
    requires
        0 <= at < board.len(),
    ensures
        count(board.update(at, code), of) + (if board[at] == of {
            1nat
        } else {
            0nat
        }) == count(board, of) + (if code == of {
            1nat
        } else {
            0nat
        }),
    decreases board.len(),
{
    let init = board.drop_last();
    if at == board.len() - 1 {
        assert(board.update(at, code).drop_last() =~= init);
    } else {
        count_update(init, at, code, of);
        assert(board.update(at, code).drop_last() =~= init.update(at, code));
    }
}

/// The three cells `a`, `b` and `c` all hold `code`.
pub open spec fn line(board: Seq<u8>, a: int, b: int, c: int, code: u8) -> bool {
    board[a] == code && board[b] == code && board[c] == code
}

/// The row `r` of `board` holds `code` in all three cells.
pub open spec fn row_line(board: Seq<u8>, r: int, code: u8) -> bool {
    line(board, 3 * r, 3 * r + 1, 3 * r + 2, code)
}

/// The column `c` of `board` holds `code` in all three cells.
pub open spec fn column_line(board: Seq<u8>, c: int, code: u8) -> bool {
    line(board, c, c + 3, c + 6, code)
}

/// Some row, column or diagonal of `board` holds `code` in all three cells.
pub open spec fn wins(board: Seq<u8>, code: u8) -> bool {
    ||| line(board, 0, 1, 2, code)
    ||| line(board, 3, 4, 5, code)
    ||| line(board, 6, 7, 8, code)
    ||| line(board, 0, 3, 6, code)
    ||| line(board, 1, 4, 7, code)
    ||| line(board, 2, 5, 8, code)
    ||| line(board, 0, 4, 8, code)
    ||| line(board, 6, 4, 2, code)
}

/// It is the turn of the side that places `piece`: the crosses begin, and
/// the sides alternate, so that the crosses move when there are as many
/// noughts as crosses, and the noughts when there is one cross more.
pub open spec fn in_turn(board: Seq<u8>, piece: Piece) -> bool {
    match piece {
        Piece::Nought => count(board, NOUGHT) + 1 == count(board, CROSS),
        Piece::Cross => count(board, NOUGHT) == count(board, CROSS),
    }
}

/// The side that places `piece` can move: it is its turn, and a cell is
/// empty.
pub open spec fn has_move(board: Seq<u8>, piece: Piece) -> bool {
    in_turn(board, piece) && count(board, EMPTY) > 0
}

/// A move: a piece, and the cell to place it in. The row and the column of
/// the cell are 0, 1 or 2.
#[derive(Clone, Copy, Debug, PartialEq, Eq)]
pub struct Move {
    coordinates: (usize, usize),
    piece: Piece,
}

impl Move {
    #[verifier::type_invariant]
    spec fn on_board(self) -> bool {
        self.coordinates.0 <= 2 && self.coordinates.1 <= 2
    }

    /// The row of the cell.
    pub closed spec fn x(self) -> usize {
        self.coordinates.0
    }

    /// The column of the cell.
    pub closed spec fn y(self) -> usize {
        self.coordinates.1
    }

    /// The piece to place.
    pub closed spec fn stone(self) -> Piece {
        self.piece
    }

    /// The place of the cell on the board, row by row.
    pub open spec fn cell(self) -> int {
        3 * self.x() + self.y()
    }

    /// The move that places `piece` in row `x`, column `y`.
    pub fn new(x: usize, y: usize, piece: Piece) -> (made: Move)
        requires
            x <= 2,
            y <= 2,
        ensures
            made.x() == x,
            made.y() == y,
            made.stone() == piece,
    {
        Move { coordinates: (x, y), piece }
    }

    /// The row of the cell.
    pub fn row(&self) -> (x: usize)
        ensures
            x == self.x(),
            x <= 2,
    {
        proof {
            use_type_invariant(self);
        }
        self.coordinates.0
    }

    /// The column of the cell.
    pub fn column(&self) -> (y: usize)
        ensures
            y == self.y(),
            y <= 2,
    {
        proof {
            use_type_invariant(self);
        }
        self.coordinates.1
    }

    /// The piece to place.
    pub fn piece(&self) -> (piece: Piece)
        ensures
            piece == self.stone(),
    {
        self.piece
    }

    /// Two moves with the same cell and piece are the same move.
    pub proof fn same_parts(self, other: Move)
        requires
            self.x() == other.x(),
            self.y() == other.y(),
            self.stone() == other.stone(),
        ensures
            self == other,
    {
    }
}

/// Whether `player` may play `game_move` on `board`: the piece is the
/// player's, the cell is on the board and empty, and it is the player's turn.
pub open spec fn legal_on(board: Seq<u8>, game_move: Move, player: PlayerEnum) -> bool {
    &&& game_move.stone() == Piece::of(player)
    &&& game_move.x() <= 2
    &&& game_move.y() <= 2
    &&& board[game_move.cell()] == EMPTY
    &&& in_turn(board, game_move.stone())
}

/// Why a move is refused.
pub open spec fn refusal(board: Seq<u8>, game_move: Move, player: PlayerEnum) -> Seq<char> {
    if player == PlayerEnum::One && game_move.stone() == Piece::Nought {
        "Player 1 tried to place noughts"@
    } else if player == PlayerEnum::Two && game_move.stone() == Piece::Cross {
        "Player 2 tried to place crosses"@
    } else if board[game_move.cell()] != EMPTY {
        "Trying to override another piece"@
    } else if game_move.stone() == Piece::Nought {
        "Nought playing out of turn"@
    } else {
        "Crosses playing out of turn"@
    }
}

/// A position of noughts and crosses.
pub struct TicTacToe {
    state: Board,
}

impl View for TicTacToe {
    type V = Seq<u8>;

    /// The nine cells, row by row.
    closed spec fn view(&self) -> Seq<u8> {
        cells(self.state)
    }
}

impl Clone for TicTacToe {
    /// A copy of the position.
    fn clone(&self) -> (copy: Self)
        ensures
            copy@ == self@,
    {
        proof {
            use_type_invariant(self);
        }
        Self { state: self.state.copy() }
    }
}

/// Whether all of `lane` holds `code`.
fn all_match(lane: &Vec<u8>, code: u8) -> (all: bool)
    ensures
        all == forall|i: int| 0 <= i < lane@.len() ==> lane@[i] == code,
{
    let mut i: usize = 0;
    while i < lane.len()
        invariant
            i <= lane.len(),
            forall|j: int| 0 <= j < i ==> lane@[j] == code,
        decreases lane.len() - i,
    {
        if lane[i] != code {
            return false;
        }
        i += 1;
    }
    true
}

impl TicTacToe {
    #[verifier::type_invariant]
    spec fn well_formed(self) -> bool {
        valid(cells(self.state))
    }

    /// The empty board.
    pub fn new() -> (start: Self)
        ensures
            start@ == Seq::new(9, |i: int| EMPTY),
    {
        let state = Board::empty();
        Self { state }
    }

    /// What the cell in row `x`, column `y` holds.
    pub fn piece_at(&self, x: usize, y: usize) -> (held: OptionalPiece)
        requires
            x <= 2,
            y <= 2,
        ensures
            held == OptionalPiece::of_code(self@[3 * x + y]),
    {
        proof {
            use_type_invariant(self);
        }
        OptionalPiece::from_code(self.state.cell(x, y))
    }

    /// The number of cells that hold `piece`.
    pub fn count(&self, piece: OptionalPiece) -> (n: u8)
        ensures
            n == count(self@, piece.code()),
    {
        proof {
            use_type_invariant(self);
        }
        let code = piece.to_code();
        let listed = self.state.in_order();
        let mut n: u8 = 0;
        let mut i: usize = 0;
        while i < listed.len()
            invariant
                i <= listed.len(),
                listed@.len() == 9,
                n == count(listed@.take(i as int), code),
                n <= i,
            decreases listed.len() - i,
        {
            proof {
                assert(listed@.take(i + 1).drop_last() =~= listed@.take(i as int));
            }
            if listed[i] == code {
                n = n + 1;
            }
            i += 1;
        }
        proof {
            assert(listed@.take(i as int) =~= listed@);
        }
        n
    }

    /// Whether `piece` holds a whole row, column or diagonal.
    pub fn does_piece_win(&self, piece: Piece) -> (won: bool)
        ensures
            won == wins(self@, piece.code()),
    {
        proof {
            use_type_invariant(self);
        }
        let code = piece.to_code();
        let ghost board = self@;
        // Any rows all match?
        let rows = self.state.lanes(0);
        let mut i: usize = 0;
        while i < 3
            invariant
                i <= 3,
                board == self@,
                board.len() == 9,
                code == piece.code(),
                rows@.len() == 3,
                forall|r: int| 0 <= r < 3 ==> (#[trigger] rows@[r])@.len() == 3,
                forall|r: int, c: int|
                    0 <= r < 3 && 0 <= c < 3 ==> #[trigger] rows@[r]@[c] == board[3 * r + c],
                forall|r: int| 0 <= r < i ==> !#[trigger] row_line(board, r, code),
            decreases 3 - i,
        {
            if all_match(&rows[i], code) {
                proof {
                    let r = i as int;
                    assert(rows@[r]@[0] == board[3 * r + 0]);
                    assert(rows@[r]@[1] == board[3 * r + 1]);
                    assert(rows@[r]@[2] == board[3 * r + 2]);
                    assert(row_line(board, r, code));
                    assert(wins(board, code));
                }
                return true;
            }
            proof {
                let r = i as int;
                let k = choose|k: int| 0 <= k < rows@[r]@.len() && rows@[r]@[k] != code;
                assert(rows@[r]@[k] == board[3 * r + k]);
                assert(!row_line(board, r, code));
            }
            i += 1;
        }
        // Any columns all match?
        let columns = self.state.lanes(1);
        let mut j: usize = 0;
        while j < 3
            invariant
                j <= 3,
                board == self@,
                board.len() == 9,
                code == piece.code(),
                columns@.len() == 3,
                forall|c: int| 0 <= c < 3 ==> (#[trigger] columns@[c])@.len() == 3,
                forall|c: int, r: int|
                    0 <= r < 3 && 0 <= c < 3 ==> #[trigger] columns@[c]@[r] == board[3 * r + c],
                forall|r: int| 0 <= r < 3 ==> !#[trigger] row_line(board, r, code),
                forall|c: int| 0 <= c < j ==> !#[trigger] column_line(board, c, code),
            decreases 3 - j,
        {
            if all_match(&columns[j], code) {
                proof {
                    let c = j as int;
                    assert(columns@[c]@[0] == board[3 * 0int + c]);
                    assert(columns@[c]@[1] == board[3 * 1int + c]);
                    assert(columns@[c]@[2] == board[3 * 2int + c]);
                    assert(column_line(board, c, code));
                    assert(wins(board, code));
                }
                return true;
            }
            proof {
                let c = j as int;
                let k = choose|k: int| 0 <= k < columns@[c]@.len() && columns@[c]@[k] != code;
                assert(columns@[c]@[k] == board[3 * k + c]);
                assert(!column_line(board, c, code));
            }
            j += 1;
        }
        // Diagonal matches?
        let diagonal = self.state.diagonal();
        if all_match(&diagonal, code) {
            proof {
                assert(diagonal@[0] == board[4 * 0int]);
                assert(diagonal@[1] == board[4 * 1int]);
                assert(diagonal@[2] == board[4 * 2int]);
            }
            return true;
        }
        proof {
            let k = choose|k: int| 0 <= k < diagonal@.len() && diagonal@[k] != code;
            assert(diagonal@[k] == board[4 * k]);
        }
        // Anti-diagonal matches? Invert one of the axes and take a look at the diagonal again.
        let mut flipped = self.state.copy();
        flipped.invert_rows();
        let counter_diagonal = flipped.diagonal();
        proof {
            assert forall|k: int|
                0 <= k < 3 implies #[trigger] counter_diagonal@[k] == board[6 - 2 * k] by {
                assert(counter_diagonal@[k] == cells(flipped)[4 * k]);
                assert(cells(flipped)[3 * k + k] == board[3 * (2 - k) + k]);
            }
        }
        if all_match(&counter_diagonal, code) {
            proof {
                assert(counter_diagonal@[0] == board[6 - 2 * 0int]);
                assert(counter_diagonal@[1] == board[6 - 2 * 1int]);
                assert(counter_diagonal@[2] == board[6 - 2 * 2int]);
            }
            return true;
        }
        proof {
            let k = choose|k: int| 0 <= k < counter_diagonal@.len() && counter_diagonal@[k] != code;
            assert(counter_diagonal@[k] == board[6 - 2 * k]);
            assert(!row_line(board, 0, code) && !row_line(board, 1, code) && !row_line(board, 2, code));
            assert(!column_line(board, 0, code) && !column_line(board, 1, code) && !column_line(
                board,
                2,
                code,
            ));
        }
        // Otherwise
        false
    }

    /// Whether `player` may play `game_move` here, and if not, why.
    pub fn is_legal(&self, game_move: Move, player: PlayerEnum) -> (verdict: Result<(), String>)
        ensures
            verdict is Ok <==> legal_on(self@, game_move, player),
            verdict matches Err(reason) ==> reason@ == refusal(self@, game_move, player),
    {
        proof {
            use_type_invariant(self);
            use_type_invariant(&game_move);
        }
        let x = game_move.row();
        let y = game_move.column();
        let piece = game_move.piece();

        match (player, piece) {
            (PlayerEnum::One, Piece::Nought) => {
                return Err("Player 1 tried to place noughts".to_string());
            },
            (PlayerEnum::Two, Piece::Cross) => {
                return Err("Player 2 tried to place crosses".to_string());
            },
            _ => (),
        }

        if self.state.cell(x, y) != EMPTY {
            return Err("Trying to override another piece".to_string());
        }
        let count_noughts = self.count(OptionalPiece::from_code(NOUGHT));
        let count_crosses = self.count(OptionalPiece::from_code(CROSS));
        proof {
            count_bounds(self@, NOUGHT);
            count_bounds(self@, CROSS);
        }
        match piece {
            Piece::Nought => {
                // Check that there's one more cross.
                if !(count_noughts + 1 == count_crosses) {
                    return Err("Nought playing out of turn".to_string());
                }
            },
            Piece::Cross => {
                // Check that there's the same number of either.
                if count_noughts != count_crosses {
                    return Err("Crosses playing out of turn".to_string());
                }
            },
        }

        Ok(())
    }
}

/// Three to the ninth.
pub proof fn pow3_nine()
    ensures
        pow3(9) == 19683,
{
    reveal_with_fuel(pow3, 10);
}

/// The powers of three grow.
pub proof fn pow3_grows(n: nat, m: nat)
    requires
        n <= m,
    ensures
        pow3(n) <= pow3(m),
        pow3(n) >= 1,
    decreases m,
{
    if n < m {
        pow3_grows(n, (m - 1) as nat);
    } else if n > 0 {
        pow3_grows((n - 1) as nat, (m - 1) as nat);
    }
}

/// The address of a valid board stands for that board, and fits the key.
pub proof fn address_of_valid(board: Seq<u8>)
    requires
        valid(board),
    ensures
        encode(board) < 19683,
        board_of(encode(board) as u64) == board,
{
    decode_encode(board);
    pow3_nine();
}

/// The board of any address is valid.
pub proof fn board_is_valid(key: u64)
    ensures
        valid(board_of(key)),
{
    decode_is_digits(key as nat, 9);
}

/// The empty cells before the place `upto`, counted one place further.
proof fn count_take_next(board: Seq<u8>, upto: int, code: u8)
    requires
        0 <= upto < board.len(),
    ensures
        count(board.take(upto + 1), code) == count(board.take(upto), code) + if board[upto] == code {
            1nat
        } else {
            0nat
        },
{
    assert(board.take(upto + 1).drop_last() =~= board.take(upto));
}

impl GameState for TicTacToe {
    type Move = Move;

    /// The board written in base three.
    open spec fn key(&self) -> u64 {
        encode(self@) as u64
    }

    /// The crosses, the pieces of side one, move when there are as many
    /// noughts as crosses; else the noughts do.
    open spec fn turn(key: u64) -> PlayerEnum {
        if in_turn(board_of(key), Piece::Cross) {
            PlayerEnum::One
        } else {
            PlayerEnum::Two
        }
    }

    open spec fn legal(key: u64, game_move: Move, player: PlayerEnum) -> bool {
        legal_on(board_of(key), game_move, player)
    }

    /// The legal moves come in the order of their cells, row by row: the
    /// place of a move is the number of empty cells before its cell.
    open spec fn place(key: u64, game_move: Move, player: PlayerEnum) -> u64 {
        count(board_of(key).take(game_move.cell()), EMPTY) as u64
    }

    open spec fn successor(key: u64, game_move: Move, player: PlayerEnum) -> u64 {
        encode(board_of(key).update(game_move.cell(), game_move.stone().code())) as u64
    }

    /// The crosses have won, or the noughts have, or else the game is drawn
    /// once the side to move cannot move.
    open spec fn outcome(key: u64, next_player: PlayerEnum) -> Option<Conclusion> {
        let board = board_of(key);
        if wins(board, CROSS) {
            Some(Conclusion::Win(PlayerEnum::One))
        } else if wins(board, NOUGHT) {
            Some(Conclusion::Win(PlayerEnum::Two))
        } else if !has_move(board, Piece::of(next_player)) {
            Some(Conclusion::Draw)
        } else {
            None
        }
    }

    /// No more plies can follow than there are empty cells.
    open spec fn plies_left(key: u64) -> u64 {
        count(board_of(key), EMPTY) as u64
    }

    proof fn moves_in_turn(key: u64, game_move: Move, player: PlayerEnum) {
        let board = board_of(key);
        let after = board.update(game_move.cell(), game_move.stone().code());
        board_is_valid(key);
        address_of_valid(after);
        count_update(board, game_move.cell(), game_move.stone().code(), NOUGHT);
        count_update(board, game_move.cell(), game_move.stone().code(), CROSS);
        count_update(board, game_move.cell(), game_move.stone().code(), EMPTY);
        count_bounds(board, EMPTY);
        count_bounds(after, EMPTY);
    }

    proof fn open_game_has_move(key: u64, next_player: PlayerEnum) {
        let board = board_of(key);
        board_is_valid(key);
        count_bounds(board, EMPTY);
        let i = choose|i: int| 0 <= i < board.len() && board[i] == EMPTY;
        let game_move = Move { coordinates: ((i / 3) as usize, (i % 3) as usize), piece: Piece::of(next_player) };
        assert(game_move.cell() == i);
        assert(Self::legal(key, game_move, next_player));
    }

    fn position_key(&self) -> (k: u64) {
        proof {
            use_type_invariant(self);
            pow3_nine();
        }
        let listed = self.state.in_order();
        let mut key: u64 = 0;
        let mut i: usize = 9;
        proof {
            assert(listed@.skip(9) =~= Seq::<u8>::empty());
        }
        while i > 0
            invariant
                i <= 9,
                listed@.len() == 9,
                valid(listed@),
                key == encode(listed@.skip(i as int)),
                key < pow3((9 - i) as nat),
                pow3(9) == 19683,
            decreases i,
        {
            proof {
                assert(listed@.skip(i - 1).drop_first() =~= listed@.skip(i as int));
                assert(listed@.skip(i - 1)[0] == listed@[i - 1]);
                pow3_grows((9 - i + 1) as nat, 9);
                assert(listed@[i - 1] < 3);
            }
            i -= 1;
            key = key * 3 + listed[i] as u64;
        }
        proof {
            assert(listed@.skip(0) =~= listed@);
        }
        key
    }

    fn duplicate(&self) -> (copy: Self) {
        self.clone()
    }

    fn same_move(a: &Move, b: &Move) -> (same: bool) {
        a.coordinates.0 == b.coordinates.0 && a.coordinates.1 == b.coordinates.1 && a.piece == b.piece
    }

    /// Places the piece of the move in its cell.
    fn update(&mut self, game_move: Move, player: PlayerEnum)
        ensures
            final(self)@ == old(self)@.update(game_move.cell(), game_move.stone().code()),
    {
        proof {
            use_type_invariant(&*self);
            address_of_valid(self@);
        }
        let x = game_move.row();
        let y = game_move.column();
        let piece = game_move.piece();
        self.state.put(x, y, piece.to_code());
    }

    fn all_legal_moves(&self, player: PlayerEnum) -> (moves: Vec<Move>) {
        proof {
            use_type_invariant(self);
            address_of_valid(self@);
        }
        let ghost board = self@;
        let listed = self.state.indexed();
        let mut moves: Vec<Move> = Vec::new();
        let mut k: usize = 0;
        while k < 9
            invariant
                k <= 9,
                board == self@,
                valid(board),
                listed@.len() == 9,
                forall|t: int|
                    0 <= t < 9 ==> #[trigger] listed@[t] == (((t / 3) as usize, (t % 3) as usize), board[t]),
                forall|m: Move|
                    #[trigger] moves@.contains(m) <==> legal_on(board, m, player) && m.cell() < k,
                forall|i: int|
                    0 <= i < moves@.len() ==> count(board.take((#[trigger] moves@[i]).cell()), EMPTY) == i,
                moves@.len() == if in_turn(board, Piece::of(player)) {
                    count(board.take(k as int), EMPTY)
                } else {
                    0
                },
                moves@.no_duplicates(),
            decreases 9 - k,
        {
            let x = listed[k].0.0;
            let y = listed[k].0.1;
            let game_move = Move::new(x, y, Piece::from(player));
            let ghost before = moves@;
            proof {
                assert(game_move.cell() == k);
                count_take_next(board, k as int, EMPTY);
            }
            if self.is_legal(game_move, player).is_ok() {
                moves.push(game_move);
                proof {
                    assert(moves@[before.len() as int] == game_move);
                    assert forall|m: Move| #[trigger]
                        moves@.contains(m) <==> legal_on(board, m, player) && m.cell() < k + 1 by {
                        if moves@.contains(m) {
                            let i = choose|i: int| 0 <= i < moves@.len() && moves@[i] == m;
                            if i < before.len() {
                                assert(before[i] == m);
                                assert(before.contains(m));
                            }
                        }
                        if legal_on(board, m, player) && m.cell() < k + 1 {
                            if m.cell() < k {
                                assert(before.contains(m));
                                let i = choose|i: int| 0 <= i < before.len() && before[i] == m;
                                assert(moves@[i] == m);
                            } else {
                                m.same_parts(game_move);
                            }
                        }
                    }
                    assert forall|i: int| 0 <= i < moves@.len() implies count(
                        board.take((#[trigger] moves@[i]).cell()),
                        EMPTY,
                    ) == i by {
                        if i < before.len() {
                            assert(moves@[i] == before[i]);
                        }
                    }
                    assert forall|i: int, j: int|
                        0 <= i < moves@.len() && 0 <= j < moves@.len() && i != j implies moves@[i]
                        != moves@[j] by {
                        if i == before.len() {
                            assert(before.contains(before[j]));
                        } else if j == before.len() {
                            assert(before.contains(before[i]));
                        } else {
                            assert(before[i] != before[j]);
                        }
                    }
                }
            } else {
                proof {
                    assert forall|m: Move| #[trigger]
                        moves@.contains(m) <==> legal_on(board, m, player) && m.cell() < k + 1 by {
                        if legal_on(board, m, player) && m.cell() == k {
                            m.same_parts(game_move);
                        }
                    }
                }
            }
            k += 1;
        }
        proof {
            address_of_valid(board);
            assert forall|i: int| 0 <= i < moves@.len() implies Self::place(
                self.key(),
                #[trigger] moves@[i],
                player,
            ) == i by {
                assert(moves@.contains(moves@[i]));
                count_bounds(board.take(moves@[i].cell()), EMPTY);
            }
        }
        moves
    }

    fn try_conclude(&self, next_player: PlayerEnum) -> (conclusion: Option<Conclusion>) {
        proof {
            use_type_invariant(self);
            address_of_valid(self@);
        }
        if self.does_piece_win(Piece::Cross) {
            return Some(Conclusion::Win(PlayerEnum::One));
        }
        if self.does_piece_win(Piece::Nought) {
            return Some(Conclusion::Win(PlayerEnum::Two));
        }
        // Otherwise, if there are no moves left for the next player, draw.
        let moves = self.all_legal_moves(next_player);
        proof {
            let board = self@;
            count_bounds(board, EMPTY);
            if has_move(board, Piece::of(next_player)) {
                let i = choose|i: int| 0 <= i < board.len() && board[i] == EMPTY;
                let game_move = Move {
                    coordinates: ((i / 3) as usize, (i % 3) as usize),
                    piece: Piece::of(next_player),
                };
                assert(game_move.cell() == i);
                assert(moves@.contains(game_move));
            }
            if moves@.len() > 0 {
                assert(moves@.contains(moves@[0]));
                assert(board[moves@[0].cell()] == EMPTY);
            }
        }
        if moves.len() == 0 {
            return Some(Conclusion::Draw);
        }
        // Otherwise, the game goes on.
        None
    }
}

} // verus!
