//! The Monte Carlo search tree and its random playouts.
//!
//! The tree is an arena: nodes refer to their parent and to the range of
//! their children by index into `Tree::move_tree`.  Every node other than a
//! root holds the position of its parent with one legal move played.
use vstd::prelude::*;
use rand::seq::SliceRandom;
use crate::board::ChessBoard;
use crate::board::is_legal;
use crate::board::after_move;
use crate::board::legal_moves;
use crate::board::move_fits;
use crate::board::moves_played;
use crate::board::Side;
use crate::board::MoveKind;
use crate::board::in_check;
use crate::board::turn;
use crate::board::moves_of_kind;
use crate::board::is_checkmate;
use crate::board::is_stalemate;
use crate::board::material_key_from;
use crate::board::non_pawn_material_from;
use crate::board::see_at_least_from;
use crate::board::in_check_from;
use crate::board::legal_moves_from;
use crate::board::moves_of_kind_from;
use crate::board::rule_50_from;
use crate::game::insufficient_material_key;
use crate::game::is_insufficient_material;

verus! {

/// Where a node stands: which search tree (`branch`) and which slot of it.
#[derive(Clone, Copy, Debug, PartialEq, Eq, Structural)]
pub struct PositionId {
    pub branch: usize,
    pub index: usize,
}

/// The role of a node in the tree.
#[derive(Clone, Copy, Debug, PartialEq, Eq, Structural)]
pub enum NodeType {
    /// The node the search starts from.
    Root,
    /// A node that has been expanded.
    Twig,
    /// A node that has not been expanded yet.
    Leaf,
}

/// A node of the search tree.
pub struct Position {
    pub id: PositionId,
    pub node_type: NodeType,
    pub parent: Option<PositionId>,
    /// The first child, when the node has been expanded.
    pub child_first: Option<PositionId>,
    /// One past the last child, when the node has been expanded.
    pub child_last: Option<PositionId>,
    /// The sum of the playout results backed up through this node.
    pub wins: i64,
    /// The number of playout results backed up through this node.
    pub simulations: i32,
    /// The number of times the selection walk passed through this node.
    pub visits: i32,
    /// The move that leads from the parent's position to this one.
    pub route: Option<u16>,
    /// The position of the node.
    pub position: ChessBoard,
}

impl Position {
    /// Records one playout result.
    pub fn update(&mut self, result: i32)
        requires
            old(self).simulations < i32::MAX,
            i64::MIN <= old(self).wins + result <= i64::MAX,
        ensures
            final(self).simulations == old(self).simulations + 1,
            final(self).wins == old(self).wins + result,
            same_except_stats(*final(self), *old(self)),
            final(self).visits == old(self).visits,
    {
        self.simulations = self.simulations + 1;
        self.wins = self.wins + result as i64;
    }
}

/// The two nodes agree on everything but their playout statistics and visits.
pub open spec fn same_except_stats(a: Position, b: Position) -> bool {
    &&& a.id == b.id
    &&& a.node_type == b.node_type
    &&& a.parent == b.parent
    &&& a.child_first == b.child_first
    &&& a.child_last == b.child_last
    &&& a.route == b.route
    &&& a.position == b.position
}

/// The node names slot `i` as its parent.
pub open spec fn is_child_of(p: Position, i: int) -> bool {
    p.parent is Some && p.parent.unwrap().index == i
}

/// The node at `i` is well placed in the arena `n`: its parent comes before
/// it and its position is the parent's with a legal move played; its
/// children, when it has any, come after it and name it as their parent.
pub open spec fn node_wf(n: Seq<Position>, i: int) -> bool {
    let p = n[i];
    &&& (p.parent matches Some(q) ==> {
        &&& q.index < i
        &&& p.route is Some
        &&& is_legal(n[q.index as int].position@, p.route.unwrap())
        &&& p.position@ == after_move(n[q.index as int].position@, p.route.unwrap())
    })
    &&& (p.child_first is Some <==> p.child_last is Some)
    &&& (p.child_first matches Some(f) ==> {
        &&& i < f.index <= p.child_last.unwrap().index <= n.len()
        &&& forall|c: int|
            f.index <= c < p.child_last.unwrap().index ==> is_child_of(#[trigger] n[c], i)
    })
}

/// Every node of the arena is well placed.
pub open spec fn tree_wf(n: Seq<Position>) -> bool {
    forall|i: int| 0 <= i < n.len() ==> node_wf(n, i)
}

/// The arena has room for the slots that expanding a node with `k` legal
/// moves numbers, in an arena of `len` nodes.
pub open spec fn expansion_fits(len: int, k: int) -> bool {
    len + k <= usize::MAX && len + 2 * k <= usize::MAX + 2
}

/// An unexpanded child reached by `mv` from a parent at slot `parent_index`
/// in position `parent_board`, whatever its playout statistics.
pub open spec fn fresh_shape(
    node: Position,
    branch: usize,
    parent_index: int,
    id_index: int,
    mv: u16,
    parent_board: (Seq<char>, Seq<u16>),
) -> bool {
    &&& node.id == PositionId { branch: branch, index: id_index as usize }
    &&& node.node_type == NodeType::Leaf
    &&& node.parent == Some(PositionId { branch: branch, index: parent_index as usize })
    &&& node.child_first is None
    &&& node.child_last is None
    &&& node.visits == 0
    &&& node.route == Some(mv)
    &&& node.position@ == after_move(parent_board, mv)
}

/// A freshly added, unexpanded child reached by `mv` from a parent at slot
/// `parent_index` in position `parent_board`, with no playout yet.
pub open spec fn fresh_child(
    node: Position,
    branch: usize,
    parent_index: int,
    id_index: int,
    mv: u16,
    parent_board: (Seq<char>, Seq<u16>),
) -> bool {
    &&& fresh_shape(node, branch, parent_index, id_index, mv, parent_board)
    &&& node.wins == 0
    &&& node.simulations == 0
}

/// `new` has the shape of `old` with the node at `p` expanded, as in
/// `expanded`, whatever the playout statistics of its nodes.
pub open spec fn expanded_shape(old: Seq<Position>, new: Seq<Position>, p: int, branch: usize) -> bool {
    let len = old.len();
    let parent = old[p];
    let ms = legal_moves(parent.position@);
    &&& new.len() == len + ms.len()
    &&& forall|j: int|
        0 <= j < len && j != p ==> same_except_stats(#[trigger] new[j], old[j]) && new[j].visits
            == old[j].visits
    &&& new[p].id == parent.id
    &&& new[p].node_type == (if parent.node_type == NodeType::Root {
        NodeType::Root
    } else {
        NodeType::Twig
    })
    &&& new[p].parent == parent.parent
    &&& new[p].child_first == Some(PositionId { branch: branch, index: len as usize })
    &&& new[p].child_last == Some(PositionId { branch: branch, index: (len + ms.len()) as usize })
    &&& new[p].visits == parent.visits
    &&& new[p].route == parent.route
    &&& new[p].position == parent.position
    &&& forall|c: int|
        0 <= c < ms.len() ==> fresh_shape(
            #[trigger] new[len + c],
            branch,
            p,
            len + 2 * c,
            ms[c],
            parent.position@,
        )
}

/// Every node on the path from `leaf` up to its root has room in its
/// counters for `k` more playout results.
pub open spec fn search_fits(n: Seq<Position>, leaf: int, k: int) -> bool {
    forall|j: int|
        0 <= j < n.len() && #[trigger] on_path(n, leaf, j) ==> n[j].simulations + k <= i32::MAX
            && i64::MIN + k <= n[j].wins <= i64::MAX - k
}

/// The sum of the scores of the `count` nodes in slots `first..first + count`.
pub open spec fn children_wins(n: Seq<Position>, first: int, count: int) -> int
    decreases count,
{
    if count <= 0 {
        0
    } else {
        children_wins(n, first, count - 1) + n[first + count - 1].wins
    }
}

/// `new` records one playout for `player` from each of the `k` children
/// appended after the `old.len()` slots of `old`: each child went through
/// one playout and holds its score, the score of a playout from the child's
/// position that follows the playout rules; every node on the path from
/// `leaf` up to its root went through `k` more playouts and gained the sum
/// of the children's scores; no other node changed its statistics.
pub open spec fn playouts_recorded(
    old: Seq<Position>,
    new: Seq<Position>,
    leaf: int,
    k: int,
    player: Side,
) -> bool {
    let len = old.len();
    &&& forall|j: int|
        0 <= j < len ==> #[trigger] new[j].simulations == old[j].simulations + if on_path(
            old,
            leaf,
            j,
        ) {
            k
        } else {
            0
        }
    &&& forall|j: int|
        0 <= j < len ==> #[trigger] new[j].wins == old[j].wins + if on_path(old, leaf, j) {
            children_wins(new, len as int, k)
        } else {
            0
        }
    &&& forall|c: int|
        0 <= c < k ==> (#[trigger] new[len + c]).simulations == 1 && -1 <= new[len + c].wins <= 1
            && is_playout_score(new[len + c].position@, player, new[len + c].wins as int)
}

/// `new` is `old` with the node at `p` expanded: one fresh child per legal
/// move of its position, in the order the moves are generated, appended to
/// the arena; the node records their range and becomes a twig unless it is a
/// root.  The child reached by the `c`-th move is named slot `len + 2 * c`.
/// No playout statistics change, and the new children have none.
pub open spec fn expanded(old: Seq<Position>, new: Seq<Position>, p: int, branch: usize) -> bool {
    let len = old.len();
    let k = legal_moves(old[p].position@).len();
    &&& expanded_shape(old, new, p, branch)
    &&& forall|j: int| 0 <= j < len && j != p ==> #[trigger] new[j] == old[j]
    &&& new[p].wins == old[p].wins
    &&& new[p].simulations == old[p].simulations
    &&& forall|c: int|
        0 <= c < k ==> (#[trigger] new[len + c]).wins == 0 && new[len + c].simulations == 0
}

/// `r` is the slot in `first..last` whose node went through the most
/// playouts, the first such on a tie, provided it went through at least
/// one; otherwise `r` is 0.
pub open spec fn is_most_simulated(n: Seq<Position>, first: int, last: int, r: int) -> bool {
    if forall|i: int| first <= i < last ==> #[trigger] n[i].simulations <= 0 {
        r == 0
    } else {
        &&& first <= r < last
        &&& forall|i: int| first <= i < last ==> #[trigger] n[i].simulations <= n[r].simulations
        &&& forall|i: int| first <= i < r ==> #[trigger] n[i].simulations < n[r].simulations
    }
}

/// `j` lies on the path from `from` up to its root (both ends included).
pub open spec fn on_path(n: Seq<Position>, from: int, j: int) -> bool
    decreases from,
{
    if from < 0 || from >= n.len() {
        false
    } else if j == from {
        true
    } else {
        match n[from].parent {
            Some(q) => if q.index < from {
                on_path(n, q.index as int, j)
            } else {
                false
            },
            None => false,
        }
    }
}

/// Backing up `result` from `child` overflows no counter on the way.
pub open spec fn backpropagation_fits(n: Seq<Position>, child: int, result: int) -> bool {
    forall|j: int|
        0 <= j < n.len() && #[trigger] on_path(n, child, j) ==> n[j].simulations < i32::MAX
            && i64::MIN <= n[j].wins + result <= i64::MAX
}

/// A node on the path from `from` lies at or before `from`.
pub proof fn lemma_path_descends(n: Seq<Position>, from: int, j: int)
    requires
        on_path(n, from, j),
    ensures
        0 <= j <= from < n.len(),
    decreases from,
{
    if j != from {
        let q = n[from].parent.unwrap();
        lemma_path_descends(n, q.index as int, j);
    }
}

/// One step up the path: a node is on the path from `from` when it is
/// `from` itself or lies on the path from the parent of `from`.
pub proof fn lemma_path_step(n: Seq<Position>, from: int, j: int)
    requires
        tree_wf(n),
        0 <= from < n.len(),
    ensures
        on_path(n, from, j) == (j == from || (n[from].parent is Some && on_path(
            n,
            n[from].parent.unwrap().index as int,
            j,
        ))),
{
    assert(node_wf(n, from));
}

/// Paths from the first `a.len()` slots are the same in an arena `b` that
/// keeps the parents of those slots.
pub proof fn lemma_path_prefix(a: Seq<Position>, b: Seq<Position>, from: int, j: int)
    requires
        a.len() <= b.len(),
        forall|k: int| 0 <= k < a.len() ==> (#[trigger] b[k]).parent == a[k].parent,
        0 <= from < a.len(),
    ensures
        on_path(b, from, j) == on_path(a, from, j),
    decreases from,
{
    assert(b[from].parent == a[from].parent);
    if j != from {
        if let Some(q) = a[from].parent {
            if q.index < from {
                lemma_path_prefix(a, b, q.index as int, j);
            }
        }
    }
}

/// Two arenas that agree on the scores in `first..first + count` have the
/// same sum of those scores.
pub proof fn lemma_children_wins_agree(a: Seq<Position>, b: Seq<Position>, first: int, count: int)
    requires
        forall|c: int| 0 <= c < count ==> (#[trigger] a[first + c]).wins == b[first + c].wins,
    ensures
        children_wins(a, first, count) == children_wins(b, first, count),
    decreases count,
{
    if count > 0 {
        assert(a[first + (count - 1)].wins == b[first + (count - 1)].wins);
        lemma_children_wins_agree(a, b, first, count - 1);
    }
}

/// A capture is kept exactly when its static exchange evaluation is not
/// negative.
pub proof fn lemma_winning_captures_contains(b: (Seq<char>, Seq<u16>), caps: Seq<u16>, m: u16)
    ensures
        winning_captures(b, caps).contains(m) <==> (caps.contains(m) && see_at_least_from(
            b.0,
            b.1,
            m,
            0,
        )),
    decreases caps.len(),
{
    if caps.len() > 0 {
        let rest = caps.drop_last();
        lemma_winning_captures_contains(b, rest, m);
        assert(caps =~= rest.push(caps.last()));
        if caps.contains(m) && m != caps.last() {
            let i = choose|i: int| 0 <= i < caps.len() && caps[i] == m;
            assert(rest[i] == m);
        }
        if rest.contains(m) {
            let i = choose|i: int| 0 <= i < rest.len() && rest[i] == m;
            assert(caps[i] == m);
        }
        let w = winning_captures(b, rest);
        if see_at_least_from(b.0, b.1, caps.last(), 0) {
            assert(w.push(caps.last())[w.len() as int] == caps.last());
            if w.contains(m) {
                let i = choose|i: int| 0 <= i < w.len() && w[i] == m;
                assert(w.push(caps.last())[i] == m);
            }
            if w.push(caps.last()).contains(m) && m != caps.last() {
                let i = choose|i: int| 0 <= i < w.len() + 1 && w.push(caps.last())[i] == m;
                assert(w[i] == m);
            }
        }
    }
}

/// Out of check, the playout finds no capture to draw from exactly when no
/// capture has a non-negative static exchange evaluation.
pub proof fn lemma_no_winning_capture(b: (Seq<char>, Seq<u16>), caps: Seq<u16>)
    ensures
        (winning_captures(b, caps).len() == 0) <==> (forall|c: u16|
            caps.contains(c) ==> !#[trigger] see_at_least_from(b.0, b.1, c, 0)),
{
    let w = winning_captures(b, caps);
    if w.len() > 0 {
        assert(w.contains(w[0]));
        lemma_winning_captures_contains(b, caps, w[0]);
    } else {
        assert forall|c: u16| caps.contains(c) implies !#[trigger] see_at_least_from(
            b.0,
            b.1,
            c,
            0,
        ) by {
            lemma_winning_captures_contains(b, caps, c);
        }
    }
}

/// The moves a playout draws from: in check, the evasions; out of check,
/// every capture whose static exchange evaluation is not negative and no
/// other capture, or, when there is no such capture, the quiet moves.  The
/// run of quiet plies is unchanged by an evasion, reset by such a capture,
/// and one longer when the playout falls back on quiet moves.
pub proof fn lemma_playout_moves_rules(b: (Seq<char>, Seq<u16>), quiets: int)
    ensures
        in_check_from(b.0, b.1) ==> playout_moves(b) == moves_of_kind_from(
            b.0,
            b.1,
            MoveKind::Evasions,
        ) && quiets_after(b, quiets) == quiets,
        !in_check_from(b.0, b.1) ==> forall|m: u16|
            #[trigger] playout_moves(b).contains(m) ==> (moves_of_kind_from(
                b.0,
                b.1,
                MoveKind::Captures,
            ).contains(m) && see_at_least_from(b.0, b.1, m, 0)) || (moves_of_kind_from(
                b.0,
                b.1,
                MoveKind::Quiets,
            ).contains(m) && forall|c: u16|
                moves_of_kind_from(b.0, b.1, MoveKind::Captures).contains(c)
                    ==> !#[trigger] see_at_least_from(b.0, b.1, c, 0)),
        !in_check_from(b.0, b.1) ==> forall|c: u16|
            #[trigger] moves_of_kind_from(b.0, b.1, MoveKind::Captures).contains(c)
                && see_at_least_from(b.0, b.1, c, 0) ==> playout_moves(b).contains(c),
        !in_check_from(b.0, b.1) ==> (quiets_after(b, quiets) == if exists|c: u16|
            #[trigger] moves_of_kind_from(b.0, b.1, MoveKind::Captures).contains(c)
                && see_at_least_from(b.0, b.1, c, 0) {
            0
        } else {
            quiets + 1
        }),
{
    let caps = moves_of_kind_from(b.0, b.1, MoveKind::Captures);
    lemma_no_winning_capture(b, caps);
    assert forall|m: u16| #[trigger] winning_captures(b, caps).contains(m) <==> (caps.contains(m)
        && see_at_least_from(b.0, b.1, m, 0)) by {
        lemma_winning_captures_contains(b, caps, m);
    }
}

/// Within the first fifteen plies a playout is undecided, whatever its run
/// of quiet plies, unless the side to move is mated or stalemated or the
/// material cannot win.
pub proof fn lemma_playout_undecided_early(
    b: (Seq<char>, Seq<u16>),
    side: Side,
    total: int,
    quiets: int,
    initial: int,
)
    requires
        total <= 15,
        legal_moves_from(b.0, b.1).len() > 0,
        in_check_from(b.0, b.1) || rule_50_from(b.0, b.1) < 50,
        !insufficient_material_key(material_key_from(b.0, b.1)),
    ensures
        playout_result(b, side, total, quiets, initial) is None,
{
}

/// Before the search limit, a mate decides the playout by who is mated: a
/// loss when the side scored is the one to move, a win otherwise.
pub proof fn lemma_playout_mate_scores(
    b: (Seq<char>, Seq<u16>),
    side: Side,
    total: int,
    quiets: int,
    initial: int,
)
    requires
        !(total > 15 && quiets > 3),
        in_check_from(b.0, b.1),
        legal_moves_from(b.0, b.1).len() == 0,
    ensures
        playout_result(b, side, total, quiets, initial) == if turn(b) == side {
            Some(-1i32)
        } else {
            Some(1i32)
        },
{
}

/// Before the search limit, a stalemate or a material that cannot win ends
/// the playout as a draw.
pub proof fn lemma_playout_draw_scores(
    b: (Seq<char>, Seq<u16>),
    side: Side,
    total: int,
    quiets: int,
    initial: int,
)
    requires
        !(total > 15 && quiets > 3),
        !(in_check_from(b.0, b.1) && legal_moves_from(b.0, b.1).len() == 0),
        (!in_check_from(b.0, b.1) && (rule_50_from(b.0, b.1) >= 50 || legal_moves_from(
            b.0,
            b.1,
        ).len() == 0)) || insufficient_material_key(material_key_from(b.0, b.1)),
    ensures
        playout_result(b, side, total, quiets, initial) == Some(0i32),
{
}

/// At the search limit (more than fifteen plies, more than three of them
/// quiet in a row) a playout scored against the material difference of its
/// start position is a win exactly when the side's lead in non-pawn
/// material grew, a loss exactly when it shrank, and a draw when it stayed.
pub proof fn lemma_search_limit_scores_material_change(
    start: (Seq<char>, Seq<u16>),
    end: (Seq<char>, Seq<u16>),
    side: Side,
    opponent: Side,
    total: int,
    quiets: int,
)
    requires
        total > 15,
        quiets > 3,
        opponent != side,
    ensures
        ({
            let before = non_pawn_material_from(start.0, start.1, side) - non_pawn_material_from(
                start.0,
                start.1,
                opponent,
            );
            let after = non_pawn_material_from(end.0, end.1, side) - non_pawn_material_from(
                end.0,
                end.1,
                opponent,
            );
            let r = playout_result(end, side, total, quiets, material_difference(start, side));
            &&& (r == Some(1i32) <==> after > before)
            &&& (r == Some(-1i32) <==> after < before)
            &&& (r == Some(0i32) <==> after == before)
        }),
{
    assert(side.spec_opponent() == opponent);
}

/// Every path leads up to a root: walking from any node of a well-formed
/// arena to its parent, then to that node's parent, and so on, ends at a
/// node without a parent.
pub proof fn lemma_path_ends_at_root(n: Seq<Position>, from: int) -> (top: int)
    requires
        tree_wf(n),
        0 <= from < n.len(),
    ensures
        on_path(n, from, top),
        0 <= top < n.len(),
        n[top].parent is None,
    decreases from,
{
    assert(node_wf(n, from));
    match n[from].parent {
        None => {
            assert(on_path(n, from, from));
            from
        },
        Some(q) => {
            let top = lemma_path_ends_at_root(n, q.index as int);
            lemma_path_step(n, from, top);
            top
        },
    }
}

/// A playout's score is zero-sum: scored for the opponent, against the
/// opponent's own starting material difference, a win becomes a loss, a
/// loss a win, and a draw stays a draw.
pub proof fn lemma_playout_result_zero_sum(
    b: (Seq<char>, Seq<u16>),
    side: Side,
    total: int,
    quiets: int,
    initial: int,
)
    ensures
        material_difference(b, side.spec_opponent()) == -material_difference(b, side),
        playout_result(b, side.spec_opponent(), total, quiets, -initial) == match playout_result(
            b,
            side,
            total,
            quiets,
            initial,
        ) {
            Some(v) => Some((-v) as i32),
            None => None::<i32>,
        },
{
    assert(side.spec_opponent().spec_opponent() == side);
}

/// Scored for the other side, the same plies make the same playout with the
/// opposite score: a sequence of draws that follows the playout rules for
/// `side` follows them for the opponent too (each against its own starting
/// material difference), and a win for one is a loss for the other.
pub proof fn lemma_same_plies_opposite_scores(
    b: (Seq<char>, Seq<u16>),
    side: Side,
    plies: Seq<u16>,
    r: int,
)
    requires
        playout_follows(b, side, material_difference(b, side), plies),
        playout_scores(b, side, material_difference(b, side), plies, r),
    ensures
        playout_follows(b, side.spec_opponent(), material_difference(b, side.spec_opponent()), plies),
        playout_scores(b, side.spec_opponent(), material_difference(b, side.spec_opponent()), plies, -r),
{
    let init = material_difference(b, side);
    let opp = side.spec_opponent();
    lemma_playout_result_zero_sum(b, side, 0, 0, init);
    assert(material_difference(b, opp) == -init);
    assert forall|i: int| 0 <= i < plies.len() implies #[trigger] ply_follows(
        b,
        opp,
        -init,
        plies.take(i),
        plies[i],
    ) by {
        assert(ply_follows(b, side, init, plies.take(i), plies[i]));
        let before = plies.take(i);
        lemma_playout_result_zero_sum(
            board_after(b, before),
            side,
            before.len() as int,
            playout_quiets(b, before),
            init,
        );
    }
    lemma_playout_result_zero_sum(
        board_after(b, plies),
        side,
        plies.len() as int,
        playout_quiets(b, plies),
        init,
    );
}

/// Every node names as its parent exactly the node whose child range holds
/// it: the children of a node are the slots of its range and no others.
pub open spec fn children_exact(n: Seq<Position>) -> bool {
    forall|q: int, c: int|
        #![trigger is_child_of(n[c], q)]
        0 <= q < n.len() && 0 <= c < n.len() ==> (is_child_of(n[c], q) <==> (n[q].child_first
            is Some && n[q].child_first.unwrap().index <= c < n[q].child_last.unwrap().index))
}

/// Expanding a node that had no children keeps the children of every node
/// exactly its range: the new slots are the expanded node's children, and
/// every other node keeps its children.
pub proof fn lemma_expand_keeps_children_exact(
    old: Seq<Position>,
    new: Seq<Position>,
    p: int,
    branch: usize,
)
    requires
        tree_wf(old),
        children_exact(old),
        0 <= p < old.len(),
        old[p].child_first is None,
        expansion_fits(old.len() as int, legal_moves(old[p].position@).len() as int),
        expanded(old, new, p, branch),
    ensures
        children_exact(new),
{
    let len = old.len();
    let ms = legal_moves(old[p].position@);
    assert forall|q: int, c: int| 0 <= q < new.len() && 0 <= c < new.len() implies (is_child_of(
        new[c],
        q,
    ) <==> (new[q].child_first is Some && new[q].child_first.unwrap().index <= c
        < new[q].child_last.unwrap().index)) by {
        if c < len {
            assert(node_wf(old, c));
            assert(new[c].parent == old[c].parent);
            if q < len {
                assert(is_child_of(old[c], q) == (old[q].child_first is Some
                    && old[q].child_first.unwrap().index <= c < old[q].child_last.unwrap().index));
                if q != p {
                    assert(same_except_stats(new[q], old[q]));
                }
            } else {
                assert(fresh_shape(new[len + (q - len)], branch, p, len + 2 * (q - len), ms[q - len], old[p].position@));
            }
        } else {
            assert(fresh_shape(new[len + (c - len)], branch, p, len + 2 * (c - len), ms[c - len], old[p].position@));
            if q < len && q != p {
                assert(node_wf(old, q));
                assert(same_except_stats(new[q], old[q]));
            } else if q >= len {
                assert(fresh_shape(new[len + (q - len)], branch, p, len + 2 * (q - len), ms[q - len], old[p].position@));
            }
        }
    }
}

/// `rand`'s `SliceRandom::choose` with the thread-local generator: a move
/// drawn from the list, or nothing when the list is empty.  Which move is
/// drawn is left unsaid: it is random.
#[verifier::external_body]
fn choose_move(moves: &Vec<u16>) -> (r: Option<u16>)
    ensures
        r is None <==> moves@.len() == 0,
        r matches Some(m) ==> moves@.contains(m),
{
    moves.choose(&mut rand::thread_rng()).copied()
}

/// The captures among `caps` whose static exchange evaluation is not
/// negative, in order.
pub open spec fn winning_captures(b: (Seq<char>, Seq<u16>), caps: Seq<u16>) -> Seq<u16>
    decreases caps.len(),
{
    if caps.len() == 0 {
        Seq::empty()
    } else {
        let rest = winning_captures(b, caps.drop_last());
        if see_at_least_from(b.0, b.1, caps.last(), 0) {
            rest.push(caps.last())
        } else {
            rest
        }
    }
}

/// The moves a playout draws from: the evasions when in check; otherwise
/// the captures that do not lose material, or the quiet moves when there is
/// no such capture.
pub open spec fn playout_moves(b: (Seq<char>, Seq<u16>)) -> Seq<u16> {
    if in_check(b) {
        moves_of_kind(b, MoveKind::Evasions)
    } else {
        let good = winning_captures(b, moves_of_kind(b, MoveKind::Captures));
        if good.len() == 0 {
            moves_of_kind(b, MoveKind::Quiets)
        } else {
            good
        }
    }
}

/// The run of quiet plies after drawing the next move: one longer when the
/// playout falls back on quiet moves, reset by a capture, and unchanged by
/// an evasion.
pub open spec fn quiets_after(b: (Seq<char>, Seq<u16>), quiets: int) -> int {
    if in_check(b) {
        quiets
    } else if winning_captures(b, moves_of_kind(b, MoveKind::Captures)).len() == 0 {
        quiets + 1
    } else {
        0
    }
}

/// The value of `side`'s pieces other than pawns less the opponent's.
pub open spec fn material_difference(b: (Seq<char>, Seq<u16>), side: Side) -> int {
    non_pawn_material_from(b.0, b.1, side) - non_pawn_material_from(b.0, b.1, side.spec_opponent())
}

/// The outcome of a playout for `side` in position `b` after `total` plies
/// of which the last `quiets` were quiet, where the material difference was
/// `initial` at the start: `None` while the playout goes on; otherwise 1 for
/// a win, 0 for a draw and -1 for a loss.  Past fifteen plies with more than
/// three quiet ones in a row the material difference decides; otherwise a
/// mate decides by the side to move, and stalemate or insufficient material
/// is a draw.
pub open spec fn playout_result(
    b: (Seq<char>, Seq<u16>),
    side: Side,
    total: int,
    quiets: int,
    initial: int,
) -> Option<i32> {
    let insufficient = insufficient_material_key(material_key_from(b.0, b.1));
    let search_limit = total > 15 && quiets > 3;
    if !is_checkmate(b) && !is_stalemate(b) && !insufficient && !search_limit {
        None
    } else if search_limit {
        let d = material_difference(b, side);
        if d == initial {
            Some(0i32)
        } else if d > initial {
            Some(1i32)
        } else {
            Some(-1i32)
        }
    } else if is_checkmate(b) {
        if turn(b) == side {
            Some(-1i32)
        } else {
            Some(1i32)
        }
    } else {
        Some(0i32)
    }
}

/// The position reached from `b` by playing `plies` in turn.
pub open spec fn board_after(b: (Seq<char>, Seq<u16>), plies: Seq<u16>) -> (Seq<char>, Seq<u16>) {
    (b.0, b.1 + plies)
}

/// The run of quiet plies a playout from `start` counts after drawing
/// `plies`, starting from none.
pub open spec fn playout_quiets(start: (Seq<char>, Seq<u16>), plies: Seq<u16>) -> int
    decreases plies.len(),
{
    if plies.len() == 0 {
        0
    } else {
        let before = plies.drop_last();
        quiets_after(board_after(start, before), playout_quiets(start, before))
    }
}

/// Drawing `mv` after the plies `before` follows the playout rules for
/// `player`, whose material difference was `initial` at `start`: the
/// position reached still has a legal move and is undecided, fewer than
/// `i16::MAX` half-moves were played in the game, and `mv` is one of the
/// moves the playout draws from there.
pub open spec fn ply_follows(
    start: (Seq<char>, Seq<u16>),
    player: Side,
    initial: int,
    before: Seq<u16>,
    mv: u16,
) -> bool {
    let b = board_after(start, before);
    &&& move_fits(b)
    &&& legal_moves(b).len() > 0
    &&& playout_moves(b).contains(mv)
    &&& before.len() > 0 ==> playout_result(
        b,
        player,
        before.len() as int,
        playout_quiets(start, before),
        initial,
    ) is None
}

/// Every ply of `plies` follows the playout rules.
pub open spec fn playout_follows(
    start: (Seq<char>, Seq<u16>),
    player: Side,
    initial: int,
    plies: Seq<u16>,
) -> bool {
    forall|i: int|
        0 <= i < plies.len() ==> #[trigger] ply_follows(
            start,
            player,
            initial,
            plies.take(i),
            plies[i],
        )
}

/// A playout that drew `plies` from `start` ends there with score `r`:
/// either the last ply decided it and `r` is the decision, or it is still
/// undecided and stops as a draw because the position has no legal move,
/// the playout has nothing to draw from, or `i16::MAX` half-moves were
/// played in the game.
pub open spec fn playout_scores(
    start: (Seq<char>, Seq<u16>),
    player: Side,
    initial: int,
    plies: Seq<u16>,
    r: int,
) -> bool {
    let n = plies.len();
    let b = board_after(start, plies);
    let outcome = playout_result(b, player, n as int, playout_quiets(start, plies), initial);
    ||| n > 0 && outcome == Some(r as i32) && -1 <= r <= 1
    ||| (n == 0 || outcome is None) && r == 0 && (!move_fits(b) || legal_moves(b).len() == 0
        || playout_moves(b).len() == 0)
}

/// `r` is the score for `player` of some playout from `b` that follows the
/// playout rules, measured against the material difference at `b`.
pub open spec fn is_playout_score(b: (Seq<char>, Seq<u16>), player: Side, r: int) -> bool {
    exists|plies: Seq<u16>|
        playout_follows(b, player, material_difference(b, player), plies) && #[trigger] playout_scores(
            b,
            player,
            material_difference(b, player),
            plies,
            r,
        )
}

/// The state of a random playout.
pub struct StateInformation {
    /// The position reached so far.
    pub board: ChessBoard,
    /// The playout goes on.
    pub playing: bool,
    /// Plies played so far.
    pub total_iterations: usize,
    /// Quiet plies drawn in a row, counting back from the latest.
    pub quiets_in_row: usize,
}

impl StateInformation {
    /// The value of `player_self`'s pieces other than pawns less the
    /// opponent's.
    pub fn difference(&self, player_self: Side) -> (d: i64)
        ensures
            d == material_difference(self.board@, player_self),
            d == non_pawn_material_from(self.board@.0, self.board@.1, player_self)
                - non_pawn_material_from(self.board@.0, self.board@.1, player_self.spec_opponent()),
    {
        let opponent = player_self.opponent();
        self.board.pleco_non_pawn_material(player_self) as i64
            - self.board.pleco_non_pawn_material(opponent) as i64
    }

    /// The outcome of the playout so far, for `player_self`.
    pub fn sim_result(&self, player_self: Side, initial: i64) -> (r: Option<i32>)
        ensures
            r == playout_result(
                self.board@,
                player_self,
                self.total_iterations as int,
                self.quiets_in_row as int,
                initial as int,
            ),
            r matches Some(v) ==> -1 <= v <= 1,
            self.total_iterations <= 15 && legal_moves_from(self.board@.0, self.board@.1).len() > 0
                && (in_check_from(self.board@.0, self.board@.1) || rule_50_from(
                self.board@.0,
                self.board@.1,
            ) < 50) && !insufficient_material_key(material_key_from(self.board@.0, self.board@.1))
                ==> r is None,
            self.total_iterations > 15 && self.quiets_in_row > 3 ==> {
                let d = non_pawn_material_from(self.board@.0, self.board@.1, player_self)
                    - non_pawn_material_from(self.board@.0, self.board@.1, player_self.spec_opponent());
                &&& (r == Some(1i32) <==> d > initial)
                &&& (r == Some(-1i32) <==> d < initial)
                &&& (r == Some(0i32) <==> d == initial)
            },
    {
        let mut insufficient = false;
        if is_insufficient_material(self.board.pleco_material_key()) {
            insufficient = true;
        }
        let search_limit = (self.total_iterations > 15) && (self.quiets_in_row > 3);
        if !self.board.pleco_checkmate() && !self.board.pleco_stalemate() && !insufficient
            && !search_limit {
            None
        } else {
            if search_limit {
                let final_difference = self.difference(player_self);
                if final_difference == initial {
                    Some(0)
                } else if final_difference > initial {
                    Some(1)
                } else {
                    Some(-1)
                }
            } else if self.board.pleco_checkmate() {
                if self.board.pleco_turn() == player_self {
                    Some(-1)
                } else {
                    Some(1)
                }
            } else {
                Some(0)
            }
        }
    }

    /// Plays the drawn move `mv` and tells whether the playout is decided,
    /// and how, for `player_self`, whose material difference was `initial`
    /// when the playout began.
    pub fn play_move(&mut self, mv: u16, player_self: Side, initial: i64) -> (r: Option<i32>)
        requires
            is_legal(old(self).board@, mv),
            move_fits(old(self).board@),
            old(self).total_iterations < usize::MAX,
        ensures
            final(self).board@ == after_move(old(self).board@, mv),
            moves_played(final(self).board@) == moves_played(old(self).board@) + 1,
            final(self).total_iterations == old(self).total_iterations + 1,
            final(self).quiets_in_row == old(self).quiets_in_row,
            final(self).playing == old(self).playing,
            r == playout_result(
                final(self).board@,
                player_self,
                final(self).total_iterations as int,
                final(self).quiets_in_row as int,
                initial as int,
            ),
            r matches Some(v) ==> -1 <= v <= 1,
    {
        self.board.apply_move(mv);
        self.total_iterations = self.total_iterations + 1;
        self.sim_result(player_self, initial)
    }

    /// The moves the playout draws its next move from, updating the run of
    /// quiet plies.
    pub fn playout_moves(&mut self) -> (ms: Vec<u16>)
        requires
            old(self).quiets_in_row < usize::MAX,
        ensures
            ms@ == playout_moves(old(self).board@),
            forall|i: int| 0 <= i < ms@.len() ==> is_legal(old(self).board@, #[trigger] ms@[i]),
            final(self).quiets_in_row == quiets_after(
                old(self).board@,
                old(self).quiets_in_row as int,
            ),
            final(self).board == old(self).board,
            final(self).playing == old(self).playing,
            final(self).total_iterations == old(self).total_iterations,
            in_check_from(old(self).board@.0, old(self).board@.1) ==> ms@ == moves_of_kind_from(
                old(self).board@.0,
                old(self).board@.1,
                MoveKind::Evasions,
            ),
            !in_check_from(old(self).board@.0, old(self).board@.1) ==> forall|i: int|
                0 <= i < ms@.len() ==> (moves_of_kind_from(
                    old(self).board@.0,
                    old(self).board@.1,
                    MoveKind::Captures,
                ).contains(#[trigger] ms@[i]) && see_at_least_from(
                    old(self).board@.0,
                    old(self).board@.1,
                    ms@[i],
                    0,
                )) || (moves_of_kind_from(
                    old(self).board@.0,
                    old(self).board@.1,
                    MoveKind::Quiets,
                ).contains(ms@[i]) && forall|c: u16|
                    moves_of_kind_from(old(self).board@.0, old(self).board@.1, MoveKind::Captures).contains(c)
                        ==> !#[trigger] see_at_least_from(old(self).board@.0, old(self).board@.1, c, 0)),
            !in_check_from(old(self).board@.0, old(self).board@.1) ==> forall|c: u16|
                #[trigger] moves_of_kind_from(
                    old(self).board@.0,
                    old(self).board@.1,
                    MoveKind::Captures,
                ).contains(c) && see_at_least_from(old(self).board@.0, old(self).board@.1, c, 0)
                    ==> ms@.contains(c),
            !in_check_from(old(self).board@.0, old(self).board@.1) ==> (final(self).quiets_in_row
                == if exists|c: u16|
                #[trigger] moves_of_kind_from(
                    old(self).board@.0,
                    old(self).board@.1,
                    MoveKind::Captures,
                ).contains(c) && see_at_least_from(old(self).board@.0, old(self).board@.1, c, 0) {
                0
            } else {
                old(self).quiets_in_row + 1
            }),
    {
        let ghost b = self.board@;
        proof {
            lemma_playout_moves_rules(b, self.quiets_in_row as int);
        }
        let mut dynamic_move_list: Vec<u16> = Vec::new();
        if self.board.pleco_in_check() {
            dynamic_move_list = self.board.pleco_generate_moves_of_type(MoveKind::Evasions);
        } else {
            let captures = self.board.pleco_generate_moves_of_type(MoveKind::Captures);
            let mut i: usize = 0;
            while i < captures.len()
                invariant
                    b == self.board@,
                    0 <= i <= captures@.len(),
                    forall|j: int| 0 <= j < captures@.len() ==> is_legal(b, #[trigger] captures@[j]),
                    dynamic_move_list@ == winning_captures(b, captures@.take(i as int)),
                    forall|j: int|
                        0 <= j < dynamic_move_list@.len() ==> is_legal(
                            b,
                            #[trigger] dynamic_move_list@[j],
                        ),
                decreases captures.len() - i,
            {
                assert(captures@.take(i + 1).drop_last() =~= captures@.take(i as int));
                let bit_move = captures[i];
                if self.board.pleco_see_ge(bit_move, 0) {
                    dynamic_move_list.push(bit_move);
                }
                i = i + 1;
            }
            assert(captures@.take(captures@.len() as int) =~= captures@);
            if dynamic_move_list.len() == 0 {
                dynamic_move_list = self.board.pleco_generate_moves_of_type(MoveKind::Quiets);
                self.quiets_in_row = self.quiets_in_row + 1;
            } else {
                self.quiets_in_row = 0;
            }
        }
        proof {
            assert forall|i: int| 0 <= i < dynamic_move_list@.len() implies playout_moves(b).contains(
                #[trigger] dynamic_move_list@[i],
            ) by {}
        }
        dynamic_move_list
    }
}

/// The search tree: an arena of nodes, each naming its parent and the range
/// of its children by slot.
pub struct Tree {
    move_tree: Vec<Position>,
}

impl View for Tree {
    type V = Seq<Position>;

    closed spec fn view(&self) -> Seq<Position> {
        self.move_tree@
    }
}

impl Tree {
    /// The arena is well formed.
    pub open spec fn wf(&self) -> bool {
        tree_wf(self@)
    }

    /// An empty tree.
    pub fn new() -> (t: Tree)
        ensures
            t@ == Seq::<Position>::empty(),
            t.wf(),
    {
        Tree { move_tree: Vec::new() }
    }

    /// The number of nodes.
    pub fn len(&self) -> (r: usize)
        ensures
            r == self@.len(),
    {
        self.move_tree.len()
    }

    /// The node at `index`.
    pub fn node(&self, index: usize) -> (r: &Position)
        requires
            index < self@.len(),
        ensures
            *r == self@[index as int],
    {
        &self.move_tree[index]
    }

    /// Adds a root node for `root` to the arena, naming it slot 0 of `branch`.
    pub fn add_root(&mut self, root: ChessBoard, branch: usize)
        requires
            old(self).wf(),
        ensures
            final(self).wf(),
            final(self)@ == old(self)@.push(
                Position {
                    id: PositionId { branch: branch, index: 0 },
                    node_type: NodeType::Root,
                    parent: None,
                    child_first: None,
                    child_last: None,
                    wins: 0,
                    simulations: 0,
                    visits: 0,
                    route: None,
                    position: root,
                },
            ),
    {
        let root_id = PositionId { branch: branch, index: 0 };
        let root_position = Position {
            id: root_id,
            node_type: NodeType::Root,
            parent: None,
            child_first: None,
            child_last: None,
            wins: 0,
            simulations: 0,
            visits: 0,
            route: None,
            position: root,
        };
        let ghost before = self@;
        self.move_tree.push(root_position);
        assert forall|i: int| 0 <= i < self@.len() implies node_wf(self@, i) by {
            if i < before.len() {
                assert(node_wf(before, i));
                assert(self@[i] == before[i]);
                if let Some(q) = self@[i].parent {
                    assert(self@[q.index as int] == before[q.index as int]);
                }
                if let Some(f) = self@[i].child_first {
                    assert forall|c: int|
                        f.index <= c < self@[i].child_last.unwrap().index implies is_child_of(
                        #[trigger] self@[c], i) by {
                        assert(self@[c] == before[c]);
                    }
                }
            }
        }
    }
    /// Records `result` at `child_index` and at every node on the path from
    /// it up to its root.
    pub fn backpropagate(&mut self, result: i32, child_index: usize)
        requires
            old(self).wf(),
            child_index < old(self)@.len(),
            backpropagation_fits(old(self)@, child_index as int, result as int),
        ensures
            final(self).wf(),
            final(self)@.len() == old(self)@.len(),
            forall|j: int|
                0 <= j < old(self)@.len() ==> {
                    &&& same_except_stats(#[trigger] final(self)@[j], old(self)@[j])
                    &&& final(self)@[j].visits == old(self)@[j].visits
                    &&& final(self)@[j].simulations == old(self)@[j].simulations + if on_path(
                        old(self)@,
                        child_index as int,
                        j,
                    ) {
                        1int
                    } else {
                        0int
                    }
                    &&& final(self)@[j].wins == old(self)@[j].wins + if on_path(
                        old(self)@,
                        child_index as int,
                        j,
                    ) {
                        result as int
                    } else {
                        0int
                    }
                },
    {
        let ghost start = self@;
        let ghost child = child_index as int;
        proof {
            assert(on_path(start, child, child));
        }
        self.move_tree[child_index].update(result);
        let mut node = self.move_tree[child_index].parent;
        proof {
            assert(node_wf(start, child));
            assert forall|j: int| 0 <= j < start.len() implies on_path(start, child, j) == (j
                == child || (node matches Some(q) && on_path(start, q.index as int, j))) by {
                lemma_path_step(start, child, j);
            }
            if let Some(q) = node {
                assert(on_path(start, q.index as int, q.index as int));
                assert forall|j: int| #[trigger] on_path(start, q.index as int, j) implies on_path(
                    start,
                    child,
                    j,
                ) by {
                    lemma_path_step(start, child, j);
                }
                assert(!on_path(start, q.index as int, child)) by {
                    if on_path(start, q.index as int, child) {
                        lemma_path_descends(start, q.index as int, child);
                    }
                }
            }
        }
        while node.is_some()
            invariant
                tree_wf(start),
                child < start.len(),
                backpropagation_fits(start, child, result as int),
                self@.len() == start.len(),
                node matches Some(q) ==> {
                    &&& q.index < start.len()
                    &&& on_path(start, child, q.index as int)
                    &&& forall|j: int| #[trigger]
                        on_path(start, q.index as int, j) ==> on_path(start, child, j)
                },
                forall|j: int|
                    0 <= j < start.len() ==> {
                        let done = on_path(start, child, j) && !(node matches Some(q)
                            && on_path(start, q.index as int, j));
                        &&& same_except_stats(#[trigger] self@[j], start[j])
                        &&& self@[j].visits == start[j].visits
                        &&& self@[j].simulations == start[j].simulations + if done {
                            1int
                        } else {
                            0int
                        }
                        &&& self@[j].wins == start[j].wins + if done {
                            result as int
                        } else {
                            0int
                        }
                    },
            decreases
                match node {
                    Some(q) => q.index + 1,
                    None => 0,
                },
        {
            let node_index = node.unwrap().index;
            let ghost q = node_index as int;
            proof {
                assert(on_path(start, q, q));
            }
            self.move_tree[node_index].update(result);
            node = self.move_tree[node_index].parent;
            proof {
                assert(node_wf(start, q));
                assert forall|j: int| 0 <= j < start.len() && j != q implies on_path(start, q, j)
                    == (node matches Some(p) && on_path(start, p.index as int, j)) by {
                    lemma_path_step(start, q, j);
                }
                if let Some(p) = node {
                    assert(on_path(start, p.index as int, p.index as int));
                    assert forall|j: int| #[trigger] on_path(start, p.index as int, j) implies on_path(
                        start,
                        child,
                        j,
                    ) by {
                        lemma_path_step(start, q, j);
                    }
                    assert(!on_path(start, p.index as int, q)) by {
                        if on_path(start, p.index as int, q) {
                            lemma_path_descends(start, p.index as int, q);
                        }
                    }
                }
            }
        }
        proof {
            assert forall|i: int| 0 <= i < self@.len() implies node_wf(self@, i) by {
                assert(node_wf(start, i));
                assert(same_except_stats(self@[i], start[i]));
                if let Some(q) = self@[i].parent {
                    assert(same_except_stats(self@[q.index as int], start[q.index as int]));
                }
                if let Some(f) = self@[i].child_first {
                    assert forall|c: int|
                        f.index <= c < self@[i].child_last.unwrap().index implies is_child_of(
                        #[trigger] self@[c],
                        i,
                    ) by {
                        assert(same_except_stats(self@[c], start[c]));
                    }
                }
            }
        }
    }

    /// The counters on the path from `child_index` up to its root have room
    /// for one more `result`, as `backpropagate` needs.
    pub fn can_backpropagate(&self, result: i32, child_index: usize) -> (r: bool)
        requires
            self.wf(),
            child_index < self@.len(),
        ensures
            r == backpropagation_fits(self@, child_index as int, result as int),
    {
        let ghost n = self@;
        let ghost child = child_index as int;
        let mut node = Some(PositionId { branch: 0, index: child_index });
        while node.is_some()
            invariant
                tree_wf(n),
                n == self@,
                child == child_index,
                0 <= child < n.len(),
                node matches Some(q) ==> {
                    &&& q.index < n.len()
                    &&& forall|j: int| #[trigger]
                        on_path(n, q.index as int, j) ==> on_path(n, child, j)
                },
                forall|j: int|
                    0 <= j < n.len() && #[trigger] on_path(n, child, j) && !(node matches Some(q)
                        && on_path(n, q.index as int, j)) ==> n[j].simulations < i32::MAX
                        && i64::MIN <= n[j].wins + result <= i64::MAX,
                node is None ==> backpropagation_fits(n, child, result as int),
            decreases
                match node {
                    Some(q) => q.index + 1,
                    None => 0,
                },
        {
            let node_index = node.unwrap().index;
            let ghost q = node_index as int;
            let stats = &self.move_tree[node_index];
            proof {
                assert(on_path(n, q, q));
                assert(node_wf(n, q));
            }
            if stats.simulations == i32::MAX || (result < 0 && stats.wins < i64::MIN - result as i64)
                || (result > 0 && stats.wins > i64::MAX - result as i64) {
                assert(on_path(n, child, q));
                assert(!(n[q].simulations < i32::MAX && i64::MIN <= n[q].wins + result <= i64::MAX));
                assert(0 <= q < n.len());
                assert(!backpropagation_fits(n, child, result as int));
                return false;
            }
            node = stats.parent;
            proof {
                assert forall|j: int| 0 <= j < n.len() && j != q implies on_path(n, q, j) == (
                node matches Some(p) && on_path(n, p.index as int, j)) by {
                    lemma_path_step(n, q, j);
                }
                if let Some(p) = node {
                    assert forall|j: int| #[trigger]
                        on_path(n, p.index as int, j) implies on_path(n, child, j) by {
                        lemma_path_step(n, q, j);
                    }
                }
            }
        }
        true
    }

    /// The node at `index` has not been expanded.
    pub fn is_leaf(&self, index: usize) -> (r: bool)
        requires
            index < self@.len(),
        ensures
            r == (self@[index as int].node_type == NodeType::Leaf),
    {
        match self.move_tree[index].node_type {
            NodeType::Leaf => true,
            _ => false,
        }
    }

    /// One step of the selection walk: the walk has reached the node at
    /// `index`, which counts one more visit.
    pub fn visit(&mut self, index: usize)
        requires
            old(self).wf(),
            index < old(self)@.len(),
            old(self)@[index as int].visits < i32::MAX,
        ensures
            final(self).wf(),
            final(self)@.len() == old(self)@.len(),
            final(self)@[index as int].visits == old(self)@[index as int].visits + 1,
            same_except_stats(final(self)@[index as int], old(self)@[index as int]),
            final(self)@[index as int].wins == old(self)@[index as int].wins,
            final(self)@[index as int].simulations == old(self)@[index as int].simulations,
            forall|j: int|
                0 <= j < old(self)@.len() && j != index ==> #[trigger] final(self)@[j] == old(
                    self,
                )@[j],
    {
        let ghost start = self@;
        self.move_tree[index].visits = self.move_tree[index].visits + 1;
        proof {
            assert forall|i: int| 0 <= i < self@.len() implies node_wf(self@, i) by {
                assert(node_wf(start, i));
                assert(same_except_stats(self@[i], start[i]));
                if let Some(q) = self@[i].parent {
                    assert(same_except_stats(self@[q.index as int], start[q.index as int]));
                }
                if let Some(f) = self@[i].child_first {
                    assert forall|c: int|
                        f.index <= c < self@[i].child_last.unwrap().index implies is_child_of(
                        #[trigger] self@[c],
                        i,
                    ) by {
                        assert(same_except_stats(self@[c], start[c]));
                    }
                }
            }
        }
    }
    /// Expands the node at `parent_index`: appends one unexpanded child for
    /// every legal move of its position and records their range in it.
    pub fn expand(&mut self, parent_index: usize, parent_branch: usize)
        requires
            old(self).wf(),
            parent_index < old(self)@.len(),
            expansion_fits(
                old(self)@.len() as int,
                legal_moves(old(self)@[parent_index as int].position@).len() as int,
            ),
            move_fits(old(self)@[parent_index as int].position@),
        ensures
            final(self).wf(),
            expanded(old(self)@, final(self)@, parent_index as int, parent_branch),
            old(self)@[parent_index as int].child_first is None && children_exact(old(self)@)
                ==> children_exact(final(self)@),
    {
        let ghost start = self@;
        let ghost p = parent_index as int;
        let ghost parent_board = start[p].position@;
        let moves = self.move_tree[parent_index].position.generate_moves();
        let len = self.move_tree.len();
        let first = PositionId { branch: parent_branch, index: len };
        let last = PositionId { branch: parent_branch, index: len + moves.len() };
        self.move_tree[parent_index].child_first = Some(first);
        self.move_tree[parent_index].child_last = Some(last);
        match self.move_tree[parent_index].node_type {
            NodeType::Root => {},
            _ => {
                self.move_tree[parent_index].node_type = NodeType::Twig;
            },
        }
        let ghost parent_now = self@[p];
        let mut index: usize = 0;
        while index < moves.len()
            invariant
                tree_wf(start),
                0 <= p < start.len(),
                p == parent_index,
                len == start.len(),
                parent_board == start[p].position@,
                move_fits(parent_board),
                moves@ == legal_moves(parent_board),
                expansion_fits(len as int, moves@.len() as int),
                0 <= index <= moves@.len(),
                self@.len() == len + index,
                self@[p] == parent_now,
                parent_now.position == start[p].position,
                forall|j: int| 0 <= j < len && j != p ==> #[trigger] self@[j] == start[j],
                forall|c: int|
                    0 <= c < index ==> fresh_child(
                        #[trigger] self@[len + c],
                        parent_branch,
                        p,
                        len + 2 * c,
                        moves@[c],
                        parent_board,
                    ),
            decreases moves.len() - index,
        {
            let mut child_position = self.move_tree[parent_index].position.pleco_shallow_clone();
            let child_move = moves[index];
            child_position.apply_move(child_move);
            let child_id = PositionId { branch: parent_branch, index: self.move_tree.len() + index };
            let parent_id = PositionId { branch: parent_branch, index: parent_index };
            let child = Position {
                id: child_id,
                node_type: NodeType::Leaf,
                parent: Some(parent_id),
                child_first: None,
                child_last: None,
                wins: 0,
                simulations: 0,
                visits: 0,
                route: Some(child_move),
                position: child_position,
            };
            self.move_tree.push(child);
            index = index + 1;
        }
        proof {
            let n = self@;
            let k = moves@.len();
            assert forall|i: int| 0 <= i < n.len() implies node_wf(n, i) by {
                if i < len && i != p {
                    assert(node_wf(start, i));
                    if let Some(q) = n[i].parent {
                        assert(n[q.index as int].position == start[q.index as int].position);
                    }
                    if let Some(f) = n[i].child_first {
                        assert forall|c: int|
                            f.index <= c < n[i].child_last.unwrap().index implies is_child_of(
                            #[trigger] n[c],
                            i,
                        ) by {
                            assert(start[c].parent == n[c].parent);
                        }
                    }
                } else if i == p {
                    assert(node_wf(start, p));
                    if let Some(q) = n[p].parent {
                        assert(n[q.index as int].position == start[q.index as int].position);
                    }
                    assert forall|c: int| len <= c < len + k implies is_child_of(#[trigger] n[c], p) by {
                        assert(fresh_child(n[len + (c - len)], parent_branch, p, len + 2 * (c - len), moves@[c - len], parent_board));
                    }
                } else {
                    let c = i - len;
                    assert(fresh_child(n[len + c], parent_branch, p, len + 2 * c, moves@[c], parent_board));
                    assert(n[i] == n[len + c]);
                    assert(moves@.contains(moves@[c]));
                }
            }
            if start[p].child_first is None && children_exact(start) {
                lemma_expand_keeps_children_exact(start, self@, p, parent_branch);
            }
        }
    }
    /// Expands the node at `parent_index` when the arena has room for the
    /// slots the expansion numbers and a move may still be played from its
    /// position; otherwise leaves the tree as it is.
    pub fn try_expand(&mut self, parent_index: usize, parent_branch: usize) -> (r: bool)
        requires
            old(self).wf(),
            parent_index < old(self)@.len(),
        ensures
            final(self).wf(),
            r == (expansion_fits(
                old(self)@.len() as int,
                legal_moves(old(self)@[parent_index as int].position@).len() as int,
            ) && move_fits(old(self)@[parent_index as int].position@)),
            r ==> expanded(old(self)@, final(self)@, parent_index as int, parent_branch),
            !r ==> final(self)@ == old(self)@,
    {
        if self.move_tree[parent_index].position.moves_played() >= i16::MAX as u16 {
            return false;
        }
        let k = self.move_tree[parent_index].position.generate_moves().len();
        let len = self.move_tree.len();
        if k > usize::MAX - len {
            return false;
        }
        if k >= 2 && k - 2 > usize::MAX - len - k {
            return false;
        }
        self.expand(parent_index, parent_branch);
        true
    }

    /// Plays a random game from the node at `node_index` and scores it for
    /// `player`, as `simulate` does, and hands back with the score the plies
    /// that were drawn: they follow the playout rules and the score is
    /// theirs.  The same plies, scored for the other side, follow the rules
    /// too and give the opposite score.
    pub fn playout(&self, node_index: usize, player: Side) -> (out: (i32, Ghost<Seq<u16>>))
        requires
            node_index < self@.len(),
        ensures
            -1 <= out.0 <= 1,
            legal_moves(self@[node_index as int].position@).len() == 0 ==> out.0 == 0 && out.1@.len()
                == 0,
            playout_follows(
                self@[node_index as int].position@,
                player,
                material_difference(self@[node_index as int].position@, player),
                out.1@,
            ),
            playout_scores(
                self@[node_index as int].position@,
                player,
                material_difference(self@[node_index as int].position@, player),
                out.1@,
                out.0 as int,
            ),            playout_follows(
                self@[node_index as int].position@,
                player.spec_opponent(),
                material_difference(self@[node_index as int].position@, player.spec_opponent()),
                out.1@,
            ),
            playout_scores(
                self@[node_index as int].position@,
                player.spec_opponent(),
                material_difference(self@[node_index as int].position@, player.spec_opponent()),
                out.1@,
                -out.0,
            ),
    {
        let mut state = StateInformation {
            board: self.move_tree[node_index].position.pleco_shallow_clone(),
            playing: true,
            total_iterations: 0,
            quiets_in_row: 0,
        };
        let initial_difference = state.difference(player);
        let ghost start = state.board@;
        let ghost initial = initial_difference as int;
        let ghost mut plies: Seq<u16> = Seq::empty();
        proof {
            assert(board_after(start, plies) =~= start);
        }
        while state.playing
            invariant
                state.playing,
                start == self@[node_index as int].position@,
                initial == initial_difference,
                initial == material_difference(start, player),
                state.board@ == board_after(start, plies),
                state.total_iterations == plies.len(),
                state.quiets_in_row == playout_quiets(start, plies),
                state.quiets_in_row <= state.total_iterations,
                moves_played(state.board@) == moves_played(start) + plies.len(),
                playout_follows(start, player, initial, plies),
                plies.len() > 0 ==> playout_result(
                    board_after(start, plies),
                    player,
                    plies.len() as int,
                    playout_quiets(start, plies),
                    initial,
                ) is None,
                plies.len() > 0 ==> legal_moves(start).len() > 0,
            decreases usize::MAX - state.total_iterations,
        {
            if state.board.moves_played() >= i16::MAX as u16 {
                assert(playout_scores(start, player, initial, plies, 0));
                proof {
                    lemma_same_plies_opposite_scores(start, player, plies, 0);
                }
                return (0, Ghost(plies));
            }
            if state.board.generate_moves().len() == 0 {
                assert(playout_scores(start, player, initial, plies, 0));
                proof {
                    lemma_same_plies_opposite_scores(start, player, plies, 0);
                }
                return (0, Ghost(plies));
            }
            let ghost before = state.board@;
            let dynamic_move_list = state.playout_moves();
            let move_option = choose_move(&dynamic_move_list);
            if move_option.is_none() {
                assert(playout_scores(start, player, initial, plies, 0));
                proof {
                    lemma_same_plies_opposite_scores(start, player, plies, 0);
                }
                return (0, Ghost(plies));
            }
            let chosen = move_option.unwrap();
            let ghost next = plies.push(chosen);
            proof {
                let k = choose|k: int| 0 <= k < dynamic_move_list@.len() && dynamic_move_list@[k] == chosen;
                assert(is_legal(before, dynamic_move_list@[k]));
                assert(next.drop_last() =~= plies);
                assert(next.take(plies.len() as int) =~= plies);
                assert(ply_follows(start, player, initial, next.take(plies.len() as int), next[plies.len() as int]));
                assert forall|i: int| 0 <= i < next.len() implies #[trigger] ply_follows(
                    start,
                    player,
                    initial,
                    next.take(i),
                    next[i],
                ) by {
                    if i < plies.len() {
                        assert(next.take(i) =~= plies.take(i));
                        assert(ply_follows(start, player, initial, plies.take(i), plies[i]));
                    }
                }
                assert(after_move(before, chosen) =~= board_after(start, next));
                if plies.len() == 0 {
                    assert(board_after(start, plies) =~= start);
                }
            }
            let outcome = state.play_move(chosen, player, initial_difference);
            proof {
                plies = next;
            }
            if outcome.is_some() {
                assert(playout_scores(start, player, initial, plies, outcome.unwrap() as int));
                proof {
                    lemma_same_plies_opposite_scores(start, player, plies, outcome.unwrap() as int);
                }
                return (outcome.unwrap(), Ghost(plies));
            }
        }
        (0, Ghost(plies))
    }

    /// Plays a random game from the node at `node_index` and scores it for
    /// `player`: 1 for a win, 0 for a draw, -1 for a loss.  Each ply is drawn
    /// at random from `playout_moves`; the game stops when the position has
    /// no legal move (a draw), or when `playout_result` decides.  A playout
    /// that reaches `i16::MAX` half-moves in the game stops as a draw, as no
    /// further move can be played on the board.  Which plies are drawn is
    /// random; the score is that of the plies drawn, which follow these
    /// rules (`playout` hands them back).
    pub fn simulate(&self, node_index: usize, player: Side) -> (r: i32)
        requires
            node_index < self@.len(),
        ensures
            -1 <= r <= 1,
            legal_moves(self@[node_index as int].position@).len() == 0 ==> r == 0,
            is_playout_score(self@[node_index as int].position@, player, r as int),
    {
        let (r, plies) = self.playout(node_index, player);
        proof {
            let b = self@[node_index as int].position@;
            assert(playout_scores(b, player, material_difference(b, player), plies@, r as int));
        }
        r
    }

    /// The child of `parent_index` that the most playouts went through, the
    /// first of them on a tie; slot 0 when no child has a playout.
    pub fn most_simulated_child(&self, parent_index: usize) -> (r: usize)
        requires
            self.wf(),
            parent_index < self@.len(),
            self@[parent_index as int].child_first is Some,
        ensures
            is_most_simulated(
                self@,
                self@[parent_index as int].child_first.unwrap().index as int,
                self@[parent_index as int].child_last.unwrap().index as int,
                r as int,
            ),
    {
        proof {
            assert(node_wf(self@, parent_index as int));
        }
        let first = self.move_tree[parent_index].child_first.unwrap().index;
        let last = self.move_tree[parent_index].child_last.unwrap().index;
        let mut highest: (usize, i32) = (0, 0);
        let mut index = first;
        while index < last
            invariant
                first <= index <= last <= self@.len(),
                0 < first,
                is_most_simulated(self@, first as int, index as int, highest.0 as int),
                highest.0 == 0 ==> highest.1 == 0,
                highest.0 != 0 ==> highest.1 == self@[highest.0 as int].simulations,
            decreases last - index,
        {
            if self.move_tree[index].simulations > highest.1 {
                highest.0 = index;
                highest.1 = self.move_tree[index].simulations;
            }
            index = index + 1;
        }
        highest.0
    }

    /// The move to the child of `parent_index` that the most playouts went
    /// through, the first of them on a tie, as `most_simulated_child` picks
    /// it; nothing when no child has a playout.  The move is legal in the
    /// parent's position and leads to that child's position.
    pub fn best_move(&self, parent_index: usize) -> (r: Option<u16>)
        requires
            self.wf(),
            parent_index < self@.len(),
            self@[parent_index as int].child_first is Some,
        ensures
            exists|best: int|
                #[trigger] is_most_simulated(
                    self@,
                    self@[parent_index as int].child_first.unwrap().index as int,
                    self@[parent_index as int].child_last.unwrap().index as int,
                    best,
                ) && r == if best == 0 {
                    None
                } else {
                    self@[best].route
                },
            r matches Some(m) ==> is_legal(self@[parent_index as int].position@, m),
            r matches Some(m) ==> exists|best: int|
                0 <= best < self@.len() && #[trigger] self@[best].route == Some(m) && self@[best].position@
                    == after_move(self@[parent_index as int].position@, m),
    {
        let best = self.most_simulated_child(parent_index);
        if best == 0 {
            return None;
        }
        proof {
            let n = self@;
            let p = parent_index as int;
            assert(node_wf(n, p));
            assert(is_child_of(n[best as int], p));
            assert(node_wf(n, best as int));
        }
        self.move_tree[best].route
    }

    /// One round of the search below a leaf: expands the node at `leaf` (as
    /// `expand` does, naming the children in `branch`), plays one random game
    /// from each new child for `player`, and backs each result up from the
    /// child to its root.  Gives up, returning false, where the arena has no
    /// room for the expansion, no move may be played from the leaf's position,
    /// or a counter would overflow.
    pub fn expand_and_simulate(&mut self, leaf: usize, branch: usize, player: Side) -> (r: bool)
        requires
            old(self).wf(),
            leaf < old(self)@.len(),
        ensures
            final(self).wf(),
            ({
                let k = legal_moves(old(self)@[leaf as int].position@).len() as int;
                expansion_fits(old(self)@.len() as int, k) && move_fits(
                    old(self)@[leaf as int].position@,
                ) && search_fits(old(self)@, leaf as int, k) ==> r
            }),
            r ==> {
                let k = legal_moves(old(self)@[leaf as int].position@).len() as int;
                &&& expansion_fits(old(self)@.len() as int, k)
                &&& move_fits(old(self)@[leaf as int].position@)
                &&& expanded_shape(old(self)@, final(self)@, leaf as int, branch)
                &&& playouts_recorded(old(self)@, final(self)@, leaf as int, k, player)
            },
    {
        let ghost start = self@;
        let ghost p = leaf as int;
        if !self.try_expand(leaf, branch) {
            return false;
        }
        let ghost k = legal_moves(start[p].position@).len() as int;
        let ghost ms = legal_moves(start[p].position@);
        let first = self.move_tree[leaf].child_first.unwrap().index;
        let last = self.move_tree[leaf].child_last.unwrap().index;
        let mut child = first;
        while child < last
            invariant
                tree_wf(self@),
                tree_wf(start),
                start == old(self)@,
                0 <= p < start.len(),
                p == leaf,
                k == ms.len(),
                ms == legal_moves(start[p].position@),
                first == start.len(),
                last == first + k,
                first <= child <= last,
                expanded_shape(start, self@, p, branch),
                forall|j: int|
                    0 <= j < start.len() ==> #[trigger] self@[j].simulations == start[j].simulations
                        + if on_path(start, p, j) {
                        child - first
                    } else {
                        0
                    },
                forall|j: int|
                    0 <= j < start.len() ==> #[trigger] self@[j].wins == start[j].wins + if on_path(
                        start,
                        p,
                        j,
                    ) {
                        children_wins(self@, first as int, child - first)
                    } else {
                        0
                    },
                -(child - first) <= children_wins(self@, first as int, child - first) <= child - first,
                forall|c: int|
                    0 <= c < child - first ==> (#[trigger] self@[first + c]).simulations == 1 && -1
                        <= self@[first + c].wins <= 1 && is_playout_score(
                        self@[first + c].position@,
                        player,
                        self@[first + c].wins as int,
                    ),
                forall|c: int|
                    child - first <= c < k ==> (#[trigger] self@[first + c]).simulations == 0
                        && self@[first + c].wins == 0,
            decreases last - child,
        {
            let ghost cur = self@;
            let ghost i = child - first;
            let result = self.simulate(child, player);
            proof {
                assert(fresh_shape(cur[first + i], branch, p, first + 2 * i, ms[i], start[p].position@));
                assert forall|j: int| 0 <= j < start.len() implies #[trigger] cur[j].parent
                    == start[j].parent by {
                    if j != p {
                        assert(same_except_stats(cur[j], start[j]));
                    }
                }
                assert forall|j: int| 0 <= j < cur.len() implies on_path(cur, child as int, j) == (j
                    == child || on_path(start, p, j)) by {
                    lemma_path_step(cur, child as int, j);
                    lemma_path_prefix(start, cur, p, j);
                }
                assert forall|j: int| on_path(start, p, j) implies j < start.len() by {
                    lemma_path_descends(start, p, j);
                }
                if search_fits(start, p, k) {
                    assert forall|j: int|
                        0 <= j < cur.len() && #[trigger] on_path(cur, child as int, j) implies cur[j].simulations
                        < i32::MAX && i64::MIN <= cur[j].wins + result <= i64::MAX by {
                        if j != child {
                            assert(on_path(start, p, j));
                        }
                    }
                    assert(backpropagation_fits(cur, child as int, result as int));
                }
            }
            if !self.can_backpropagate(result, child) {
                return false;
            }
            self.backpropagate(result, child);
            proof {
                let n = self@;
                assert forall|j: int|
                    0 <= j < n.len() && j != p && j != child implies same_except_stats(
                    #[trigger] n[j],
                    cur[j],
                ) && n[j].visits == cur[j].visits by {}
                assert(on_path(cur, child as int, child as int));
                assert(same_except_stats(n[child as int], cur[child as int]));
                assert forall|c: int| 0 <= c < i implies (#[trigger] n[first + c]).wins == cur[first
                    + c].wins by {
                    if on_path(start, p, first + c) {
                        lemma_path_descends(start, p, first + c);
                    }
                }
                lemma_children_wins_agree(n, cur, first as int, i);
                assert(children_wins(n, first as int, i + 1) == children_wins(n, first as int, i)
                    + n[first + i].wins);
                assert forall|c: int| 0 <= c < i + 1 implies (#[trigger] n[first + c]).simulations == 1
                    && -1 <= n[first + c].wins <= 1 && is_playout_score(
                    n[first + c].position@,
                    player,
                    n[first + c].wins as int,
                ) by {
                    if c < i {
                        assert(same_except_stats(n[first + c], cur[first + c]));
                        if on_path(start, p, first + c) {
                            lemma_path_descends(start, p, first + c);
                        }
                    }
                }
                assert forall|c: int| i + 1 <= c < k implies (#[trigger] n[first + c]).simulations == 0
                    && n[first + c].wins == 0 by {
                    if on_path(start, p, first + c) {
                        lemma_path_descends(start, p, first + c);
                    }
                }
            }
            child = child + 1;
        }
        true
    }
}

} // verus!
