//! When a game of chess is over.
use vstd::prelude::*;
use crate::board::ChessBoard;
use crate::board::is_checkmate;
use crate::board::is_stalemate;
use crate::board::rule_50_from;
use crate::board::in_check_from;
use crate::board::legal_moves_from;
use crate::board::zobrist_from;
use crate::board::moves_played;
use crate::board::material_key_from;
use crate::clock::Clock;

verus! {

/// The material keys of the positions that cannot be won by either side:
/// king and knight against king, king against king and knight, king against
/// king and bishop, king and bishop against king, and bare kings.
pub open spec fn insufficient_material_key(key: u64) -> bool {
    key == 14531074927864995568u64 || key == 12777358361509687304u64
        || key == 15001244464087343965u64 || key == 2182324930161781490u64
        || key == 1440794681747902690u64
}

/// The material key belongs to a position that cannot be won.
pub fn is_insufficient_material(key: u64) -> (r: bool)
    ensures
        r == insufficient_material_key(key),
{
    let insufficient_positions: [u64; 5] = [
        14531074927864995568,
        12777358361509687304,
        15001244464087343965,
        2182324930161781490,
        1440794681747902690,
    ];
    let mut i: usize = 0;
    while i < 5
        invariant
            0 <= i <= 5,
            insufficient_positions@ == seq![
                14531074927864995568u64,
                12777358361509687304u64,
                15001244464087343965u64,
                2182324930161781490u64,
                1440794681747902690u64,
            ],
            forall|k: int| 0 <= k < i ==> insufficient_positions@[k] != key,
        decreases 5 - i,
    {
        if insufficient_positions[i] == key {
            return true;
        }
        i = i + 1;
    }
    false
}

/// How many times `x` occurs in `s`.
pub open spec fn occurrences(s: Seq<u64>, x: u64) -> nat
    decreases s.len(),
{
    if s.len() == 0 {
        0
    } else {
        occurrences(s.drop_last(), x) + if s.last() == x {
            1nat
        } else {
            0nat
        }
    }
}

/// The record of positions after the current one is seen: a position
/// reached within one half-move of a capture or pawn move is added to it,
/// and any other position clears it.
pub open spec fn history_after(b: (Seq<char>, Seq<u16>), history: Seq<u64>) -> Seq<u64> {
    if rule_50_from(b.0, b.1) <= 1 {
        history.push(zobrist_from(b.0, b.1))
    } else {
        Seq::empty()
    }
}

/// The current position has been recorded exactly three times.
pub open spec fn is_threefold(b: (Seq<char>, Seq<u16>), history: Seq<u64>) -> bool {
    rule_50_from(b.0, b.1) <= 1 && occurrences(history_after(b, history), zobrist_from(b.0, b.1))
        == 3
}

/// Past move forty, the material left cannot win.
pub open spec fn is_insufficient(b: (Seq<char>, Seq<u16>)) -> bool {
    moves_played(b) > 40 && insufficient_material_key(material_key_from(b.0, b.1))
}

/// The game is over: mate, stalemate, threefold repetition, insufficient
/// material, or a fallen flag.
pub open spec fn game_is_over(b: (Seq<char>, Seq<u16>), history: Seq<u64>, clock: Clock) -> bool {
    is_checkmate(b) || is_stalemate(b) || is_threefold(b, history) || is_insufficient(b)
        || clock.flagged()
}

/// The number of times `x` occurs in `history`.
fn count_occurrences(history: &Vec<u64>, x: u64) -> (r: usize)
    ensures
        r == occurrences(history@, x),
{
    let mut count: usize = 0;
    let mut i: usize = 0;
    while i < history.len()
        invariant
            0 <= i <= history@.len(),
            count == occurrences(history@.take(i as int), x),
            count <= i,
        decreases history.len() - i,
    {
        assert(history@.take(i + 1).drop_last() =~= history@.take(i as int));
        if history[i] == x {
            count = count + 1;
        }
        i = i + 1;
    }
    assert(history@.take(history@.len() as int) =~= history@);
    count
}

/// Decides whether the game is over after the position on `board` was
/// reached, and records the position in `history` for the repetition count.
pub fn game_over(board: &ChessBoard, history: &mut Vec<u64>, clock: &Clock) -> (r: bool)
    ensures
        final(history)@ == history_after(board@, old(history)@),
        r == game_is_over(board@, old(history)@, *clock),
        in_check_from(board@.0, board@.1) && legal_moves_from(board@.0, board@.1).len() == 0 ==> r,
        !in_check_from(board@.0, board@.1) && (rule_50_from(board@.0, board@.1) >= 50
            || legal_moves_from(board@.0, board@.1).len() == 0) ==> r,
        clock.white_time_left == 0 || clock.black_time_left == 0 ==> r,
{
    proof {
        lemma_game_over_conditions(board@, old(history)@, *clock);
    }
    let mut threefold = false;
    let mut insufficient = false;
    if board.pleco_moves_played() > 40 {
        if is_insufficient_material(board.pleco_material_key()) {
            insufficient = true;
        }
    }
    if board.pleco_rule_50() <= 1 {
        let key = board.pleco_zobrist();
        history.push(key);
        if count_occurrences(history, key) == 3 {
            threefold = true;
        }
    } else {
        history.clear();
    }
    let flag = clock.white_flag() || clock.black_flag();
    !(!board.pleco_checkmate() && !board.pleco_stalemate() && !threefold && !insufficient && !flag)
}

/// A position seen for the third time, with no capture or pawn move in
/// between, ends the game: when the record holds it twice and the position
/// is reached again within one half-move of a capture or pawn move, the
/// game is over.
pub proof fn lemma_third_repetition_ends_game(
    b: (Seq<char>, Seq<u16>),
    history: Seq<u64>,
    clock: Clock,
)
    requires
        rule_50_from(b.0, b.1) <= 1,
        occurrences(history, zobrist_from(b.0, b.1)) == 2,
    ensures
        is_threefold(b, history),
        game_is_over(b, history, clock),
{
    let h = history_after(b, history);
    assert(h.drop_last() =~= history);
}

/// A game is over whenever the side to move is mated (in check with no
/// legal move), stalemated (not in check, and with no legal move or a
/// fifty-move counter of at least 50), or a flag has fallen, whatever the
/// record of earlier positions.
pub proof fn lemma_game_over_conditions(b: (Seq<char>, Seq<u16>), history: Seq<u64>, clock: Clock)
    ensures
        in_check_from(b.0, b.1) && legal_moves_from(b.0, b.1).len() == 0 ==> game_is_over(
            b,
            history,
            clock,
        ),
        !in_check_from(b.0, b.1) && (rule_50_from(b.0, b.1) >= 50 || legal_moves_from(b.0, b.1).len()
            == 0) ==> game_is_over(b, history, clock),
        clock.white_time_left == 0 || clock.black_time_left == 0 ==> game_is_over(
            b,
            history,
            clock,
        ),
{
}

/// A side in check with no legal move is mated, and the game is over.
pub proof fn lemma_mate_ends_game(b: (Seq<char>, Seq<u16>), history: Seq<u64>, clock: Clock)
    requires
        in_check_from(b.0, b.1),
        legal_moves_from(b.0, b.1).len() == 0,
    ensures
        game_is_over(b, history, clock),
{
    lemma_game_over_conditions(b, history, clock);
}

/// A side not in check that has no legal move, or has reached a fifty-move
/// counter of 50, is stalemated, and the game is over.
pub proof fn lemma_stalemate_ends_game(b: (Seq<char>, Seq<u16>), history: Seq<u64>, clock: Clock)
    requires
        !in_check_from(b.0, b.1),
        rule_50_from(b.0, b.1) >= 50 || legal_moves_from(b.0, b.1).len() == 0,
    ensures
        game_is_over(b, history, clock),
{
    lemma_game_over_conditions(b, history, clock);
}

/// The game goes on exactly when none of the endings applies: the side to
/// move has a legal move and is in check or below a fifty-move counter of
/// 50, the position was not just recorded for the third time, the material
/// can still win or move forty is not past, and both flags stand.
pub proof fn lemma_game_goes_on(b: (Seq<char>, Seq<u16>), history: Seq<u64>, clock: Clock)
    requires
        legal_moves_from(b.0, b.1).len() > 0,
        in_check_from(b.0, b.1) || rule_50_from(b.0, b.1) < 50,
        !(rule_50_from(b.0, b.1) <= 1 && occurrences(
            history.push(zobrist_from(b.0, b.1)),
            zobrist_from(b.0, b.1),
        ) == 3),
        moves_played(b) <= 40 || !insufficient_material_key(material_key_from(b.0, b.1)),
        clock.white_time_left != 0,
        clock.black_time_left != 0,
    ensures
        !game_is_over(b, history, clock),
{
}

} // verus!
