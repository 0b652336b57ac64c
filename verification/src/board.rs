//! A chess position backed by `pleco::Board`.
//!
//! What the engine reads of a position is computed by `pleco`.  Each such
//! query is a function of the position alone, and a position is determined by
//! the position the board was set up from (a FEN string) and the moves played
//! on it since.  `ChessBoard` carries those two values as its view, and every
//! query is named below as a function of them.  Moves are handled as the raw
//! 16-bit encoding of `pleco::BitMove`.
use vstd::prelude::*;
use pleco::Board;
use pleco::BitMove;
use pleco::Player;

verus! {

/// `pleco::Board`, held opaque: what is read of it goes through the
/// wrappers below.
#[verifier::external_type_specification]
#[verifier::external_body]
pub struct ExBoard(Board);

/// The side to move, or the side a material count is taken for.
#[derive(Clone, Copy, Debug, PartialEq, Eq, Structural)]
pub enum Side {
    White,
    Black,
}

impl Side {
    /// The other side.
    pub open spec fn spec_opponent(self) -> Side {
        match self {
            Side::White => Side::Black,
            Side::Black => Side::White,
        }
    }

    /// The other side.
    pub fn opponent(self) -> (r: Side)
        ensures
            r == self.spec_opponent(),
    {
        match self {
            Side::White => Side::Black,
            Side::Black => Side::White,
        }
    }
}

/// The kinds of move lists that the playouts ask for.
#[derive(Clone, Copy, Debug, PartialEq, Eq, Structural)]
pub enum MoveKind {
    /// Legal captures; only for a side that is not in check.
    Captures,
    /// Legal non-captures; only for a side that is not in check.
    Quiets,
    /// Legal moves out of check; only for a side that is in check.
    Evasions,
}

/// The FEN string of the initial chess position.
pub open spec fn start_fen() -> Seq<char> {
    "rnbqkbnr/pppppppp/8/8/8/8/PPPPPPPP/RNBQKBNR w KQkq - 0 1"@
}

/// `Board::generate_moves`: every legal move of the position, in the order
/// that `pleco` generates them.
pub uninterp spec fn legal_moves_from(start: Seq<char>, played: Seq<u16>) -> Seq<u16>;

/// `Board::generate_moves_of_type`: the legal moves of one kind.
pub uninterp spec fn moves_of_kind_from(start: Seq<char>, played: Seq<u16>, kind: MoveKind) -> Seq<u16>;

/// `Board::in_check`: the side to move is in check.
pub uninterp spec fn in_check_from(start: Seq<char>, played: Seq<u16>) -> bool;

/// `Board::see_ge`: the static exchange evaluation of a move reaches a threshold.
pub uninterp spec fn see_at_least_from(start: Seq<char>, played: Seq<u16>, mv: u16, threshold: i32) -> bool;

/// `Board::material_key`: the hash of the material on the board.
pub uninterp spec fn material_key_from(start: Seq<char>, played: Seq<u16>) -> u64;

/// `Board::non_pawn_material`: the value of one side's pieces other than pawns.
pub uninterp spec fn non_pawn_material_from(start: Seq<char>, played: Seq<u16>, side: Side) -> i32;

/// `Board::zobrist`: the Zobrist hash of the position.
pub uninterp spec fn zobrist_from(start: Seq<char>, played: Seq<u16>) -> u64;

/// `Board::rule_50`: half-moves since the last capture, pawn move or castle.
pub uninterp spec fn rule_50_from(start: Seq<char>, played: Seq<u16>) -> i16;


/// A chess position: a `pleco` board set up from the initial position, and
/// the moves played on it since.  Its view is the FEN string of the initial
/// position and those moves.
pub struct ChessBoard {
    board: Board,
    played: Ghost<Seq<u16>>,
}

impl View for ChessBoard {
    type V = (Seq<char>, Seq<u16>);

    closed spec fn view(&self) -> (Seq<char>, Seq<u16>) {
        (start_fen(), self.played@)
    }
}

/// Every legal move of a position.
pub open spec fn legal_moves(b: (Seq<char>, Seq<u16>)) -> Seq<u16> {
    legal_moves_from(b.0, b.1)
}

/// `mv` is a legal move of the position.
pub open spec fn is_legal(b: (Seq<char>, Seq<u16>), mv: u16) -> bool {
    legal_moves(b).contains(mv)
}

/// The legal moves of one kind.
pub open spec fn moves_of_kind(b: (Seq<char>, Seq<u16>), kind: MoveKind) -> Seq<u16> {
    moves_of_kind_from(b.0, b.1, kind)
}

/// The side to move is in check.
pub open spec fn in_check(b: (Seq<char>, Seq<u16>)) -> bool {
    in_check_from(b.0, b.1)
}

/// The side to move: white after an even number of moves from the initial
/// position, black after an odd number.
pub open spec fn turn(b: (Seq<char>, Seq<u16>)) -> Side {
    if b.1.len() % 2 == 0 {
        Side::White
    } else {
        Side::Black
    }
}

/// The side to move is checkmated: in check with no legal move.
pub open spec fn is_checkmate(b: (Seq<char>, Seq<u16>)) -> bool {
    in_check(b) && legal_moves(b).len() == 0
}

/// The side to move is stalemated, as `pleco` counts it: not in check, and
/// either without a legal move or fifty moves past the last capture or pawn move.
pub open spec fn is_stalemate(b: (Seq<char>, Seq<u16>)) -> bool {
    !in_check(b) && (rule_50_from(b.0, b.1) >= 50 || legal_moves(b).len() == 0)
}

/// The number of half-moves played in the game: the moves played since the
/// initial position.
pub open spec fn moves_played(b: (Seq<char>, Seq<u16>)) -> int {
    b.1.len() as int
}

/// A move may still be played: fewer than `i16::MAX` half-moves were played,
/// so none of the counters `pleco` keeps per move can overflow.
pub open spec fn move_fits(b: (Seq<char>, Seq<u16>)) -> bool {
    moves_played(b) < i16::MAX
}

/// The position after `mv` is played.
pub open spec fn after_move(b: (Seq<char>, Seq<u16>), mv: u16) -> (Seq<char>, Seq<u16>) {
    (b.0, b.1.push(mv))
}

/// The moves that may be asked for in a position: evasions exactly when in check.
pub open spec fn kind_allowed(b: (Seq<char>, Seq<u16>), kind: MoveKind) -> bool {
    (kind == MoveKind::Evasions) == in_check(b)
}

/// `Board::start_pos`.  Claimed: the board is set up from the FEN string of
/// the initial position, with no move played on it.
#[verifier::external_body]
fn pleco_start_pos() -> (b: ChessBoard)
    ensures
        b@ == (start_fen(), Seq::<u16>::empty()),
{
    ChessBoard { board: Board::start_pos(), played: Ghost(Seq::empty()) }
}

impl ChessBoard {
    /// The initial chess position.
    pub fn start_pos() -> (b: ChessBoard)
        ensures
            b@ == (start_fen(), Seq::<u16>::empty()),
            turn(b@) == Side::White,
            moves_played(b@) == 0,
    {
        pleco_start_pos()
    }

    /// Every legal move of the position.
    pub fn generate_moves(&self) -> (ms: Vec<u16>)
        ensures
            ms@ == legal_moves(self@),
    {
        self.pleco_generate_moves()
    }

    /// A board in the same position.
    pub fn shallow_clone(&self) -> (c: ChessBoard)
        ensures
            c@ == self@,
    {
        self.pleco_shallow_clone()
    }

    /// Plays a legal move, while fewer than `i16::MAX` half-moves were played.
    pub fn apply_move(&mut self, mv: u16)
        requires
            is_legal(old(self)@, mv),
            move_fits(old(self)@),
        ensures
            final(self)@ == after_move(old(self)@, mv),
            moves_played(final(self)@) == moves_played(old(self)@) + 1,
            turn(final(self)@) == turn(old(self)@).spec_opponent(),
    {
        self.pleco_apply_move(mv)
    }

    /// Plays `mv` when it is a legal move of the position and fewer than
    /// `i16::MAX` half-moves were played; otherwise leaves the board as it is.
    pub fn try_apply_move(&mut self, mv: u16) -> (r: bool)
        ensures
            r == (is_legal(old(self)@, mv) && move_fits(old(self)@)),
            final(self)@ == if r {
                after_move(old(self)@, mv)
            } else {
                old(self)@
            },
            r ==> moves_played(final(self)@) == moves_played(old(self)@) + 1,
            r ==> turn(final(self)@) == turn(old(self)@).spec_opponent(),
    {
        if self.pleco_moves_played() >= i16::MAX as u16 {
            return false;
        }
        let moves = self.pleco_generate_moves();
        let ghost start = self@;
        let mut i: usize = 0;
        while i < moves.len()
            invariant
                0 <= i <= moves@.len(),
                self@ == start,
                start == old(self)@,
                move_fits(start),
                moves@ == legal_moves(start),
                forall|j: int| 0 <= j < i ==> moves@[j] != mv,
            decreases moves.len() - i,
        {
            if moves[i] == mv {
                assert(moves@.contains(mv));
                self.pleco_apply_move(mv);
                return true;
            }
            i = i + 1;
        }
        assert(!moves@.contains(mv));
        false
    }

    /// The side to move.
    pub fn turn(&self) -> (r: Side)
        ensures
            r == turn(self@),
    {
        self.pleco_turn()
    }

    /// The number of half-moves played in the game.
    pub fn moves_played(&self) -> (r: u16)
        ensures
            r == moves_played(self@),
    {
        self.pleco_moves_played()
    }

    /// The `pleco` board that holds the position.
    pub closed spec fn pleco_board(&self) -> Board {
        self.board
    }

    /// The `pleco` board that holds the position, for printing it.
    pub fn board(&self) -> (r: &Board)
        ensures
            *r == self.pleco_board(),
    {
        &self.board
    }

    /// `Board::shallow_clone`.  Claimed: the clone has the same setup and the
    /// same moves played, so every query below answers alike on it.
    #[verifier::external_body]
    pub(crate) fn pleco_shallow_clone(&self) -> (c: ChessBoard)
        ensures
            c@ == self@,
    {
        ChessBoard { board: self.board.shallow_clone(), played: Ghost(self.played@) }
    }

    /// `Board::apply_move` of `BitMove::new(mv)`.  Claimed: the move is
    /// appended to the moves played.  `pleco` panics on a move that is not legal
    /// in the position, which `requires` rules out.  It also adds one to four
    /// counters on every move (the fifty-move counter, an `i16`; the half-move
    /// count, the search depth and the ply, each a `u16`), and an overflow
    /// panics.  On a board set up from the initial position, as every
    /// `ChessBoard` is, each of them is at most the half-move count, so
    /// `requires` bounds that count below `i16::MAX`.
    #[verifier::external_body]
    pub(crate) fn pleco_apply_move(&mut self, mv: u16)
        requires
            is_legal(old(self)@, mv),
            move_fits(old(self)@),
        ensures
            final(self)@ == after_move(old(self)@, mv),
    {
        self.board.apply_move(BitMove::new(mv));
        self.played = Ghost(self.played@.push(mv));
    }

    /// `Board::generate_moves`, each move taken by `BitMove::get_raw`.
    /// Claimed: the list is `legal_moves_from` of the position.
    #[verifier::external_body]
    pub(crate) fn pleco_generate_moves(&self) -> (ms: Vec<u16>)
        ensures
            ms@ == legal_moves_from(self@.0, self@.1),
    {
        self.board.generate_moves().iter().map(|m| m.get_raw()).collect()
    }

    /// `Board::generate_moves_of_type`, each move taken by `BitMove::get_raw`.
    /// Claimed: the list is `moves_of_kind_from` of the position and holds
    /// legal moves only, as `pleco`'s documentation says.  `pleco` asserts
    /// that captures and quiet moves are asked for only when the side to move
    /// is not in check, and evasions only when it is, which `requires` says.
    #[verifier::external_body]
    pub(crate) fn pleco_generate_moves_of_type(&self, kind: MoveKind) -> (ms: Vec<u16>)
        requires
            kind_allowed(self@, kind),
        ensures
            ms@ == moves_of_kind_from(self@.0, self@.1, kind),
            forall|i: int| 0 <= i < ms@.len() ==> is_legal(self@, #[trigger] ms@[i]),
    {
        let gen = match kind {
            MoveKind::Captures => pleco::core::GenTypes::Captures,
            MoveKind::Quiets => pleco::core::GenTypes::Quiets,
            MoveKind::Evasions => pleco::core::GenTypes::Evasions,
        };
        self.board.generate_moves_of_type(gen).iter().map(|m| m.get_raw()).collect()
    }

    /// `Board::in_check`.  Claimed: the answer is `in_check_from` of the
    /// position.
    #[verifier::external_body]
    pub(crate) fn pleco_in_check(&self) -> (r: bool)
        ensures
            r == in_check_from(self@.0, self@.1),
    {
        self.board.in_check()
    }

    /// `Board::see_ge` of `BitMove::new(mv)`, asked of a legal move.  Claimed:
    /// the answer is `see_at_least_from` of the position, move and threshold.
    /// `pleco` subtracts the threshold from a piece value in `i32`, which
    /// overflows for a threshold near `i32::MIN`; the threshold asked for is 0.
    #[verifier::external_body]
    pub(crate) fn pleco_see_ge(&self, mv: u16, threshold: i32) -> (r: bool)
        requires
            is_legal(self@, mv),
            threshold == 0,
        ensures
            r == see_at_least_from(self@.0, self@.1, mv, threshold),
    {
        self.board.see_ge(BitMove::new(mv), threshold)
    }

    /// `Board::material_key`.  Claimed: the key is `material_key_from` of the
    /// position.
    #[verifier::external_body]
    pub(crate) fn pleco_material_key(&self) -> (r: u64)
        ensures
            r == material_key_from(self@.0, self@.1),
    {
        self.board.material_key()
    }

    /// `Board::checkmate`.  Claimed, as `pleco` computes it: the side to move
    /// is in check and has no legal move.
    #[verifier::external_body]
    pub(crate) fn pleco_checkmate(&self) -> (r: bool)
        ensures
            r == is_checkmate(self@),
    {
        self.board.checkmate()
    }

    /// `Board::stalemate`.  Claimed, as `pleco` computes it: the side to move
    /// is not in check and either has no legal move or a fifty-move counter of
    /// at least 50.
    #[verifier::external_body]
    pub(crate) fn pleco_stalemate(&self) -> (r: bool)
        ensures
            r == is_stalemate(self@),
    {
        self.board.stalemate()
    }

    /// `Board::non_pawn_material` of the `pleco::Player` for `side`.  Claimed:
    /// the value is `non_pawn_material_from` of the position and side.
    #[verifier::external_body]
    pub(crate) fn pleco_non_pawn_material(&self, side: Side) -> (r: i32)
        ensures
            r == non_pawn_material_from(self@.0, self@.1, side),
    {
        let player = match side {
            Side::White => Player::White,
            Side::Black => Player::Black,
        };
        self.board.non_pawn_material(player)
    }

    /// `Board::turn`, as a `Side`.  Claimed: white is to move after an even
    /// number of moves, black after an odd number, as the initial position has
    /// white to move (its FEN says `w`) and `apply_move` hands the move to the
    /// other side (`self.turn = them`).
    #[verifier::external_body]
    pub(crate) fn pleco_turn(&self) -> (r: Side)
        ensures
            r == turn(self@),
    {
        match self.board.turn() {
            Player::White => Side::White,
            Player::Black => Side::Black,
        }
    }

    /// `Board::zobrist`.  Claimed: the hash is `zobrist_from` of the position.
    #[verifier::external_body]
    pub(crate) fn pleco_zobrist(&self) -> (r: u64)
        ensures
            r == zobrist_from(self@.0, self@.1),
    {
        self.board.zobrist()
    }

    /// `Board::rule_50`.  Claimed: the count is `rule_50_from` of the position.
    #[verifier::external_body]
    pub(crate) fn pleco_rule_50(&self) -> (r: i16)
        ensures
            r == rule_50_from(self@.0, self@.1),
    {
        self.board.rule_50()
    }

    /// `Board::moves_played`.  Claimed: the count is the number of moves
    /// played, as the initial position's FEN (move number 1, white to move)
    /// sets it to 0 and `apply_move` adds one per move; `move_fits` keeps it
    /// below `i16::MAX`.
    #[verifier::external_body]
    pub(crate) fn pleco_moves_played(&self) -> (r: u16)
        ensures
            r == moves_played(self@),
    {
        self.board.moves_played()
    }
}

} // verus!
