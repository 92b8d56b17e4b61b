//! A node of the Monte-Carlo search tree and its statistics.
//!
//! The search grows a single ply below its root: the root is expanded once,
//! and every simulation runs from one of its children. Selection ranks the
//! children by upper-confidence keys that the caller supplies; a child that
//! was never visited always comes first.
use vstd::prelude::*;
use crate::board::{Board, BoardView, COLUMNS, is_playout, lemma_open_upto, playout_won};

verus! {

/// `r` is the result of a finished playout from `v`: whether the player on
/// move at `v` won it.
pub open spec fn playout_result(v: BoardView, r: bool) -> bool {
    exists|s: Seq<u8>| #[trigger] is_playout(v, s) && r == playout_won(v, s)
}

/// Sum of a sequence of counters.
pub open spec fn total(s: Seq<u32>) -> int
    decreases s.len(),
{
    if s.len() == 0 {
        0
    } else {
        total(s.drop_last()) + s.last()
    }
}

/// Index `i` is the child that upper-confidence selection picks: the first
/// child without visits if there is one, else the first child whose key is
/// largest.
pub open spec fn is_uct_choice(visits: Seq<u32>, keys: Seq<u64>, i: int) -> bool {
    &&& 0 <= i < visits.len()
    &&& if exists|j: int| 0 <= j < visits.len() && visits[j] == 0 {
        visits[i] == 0 && forall|j: int| 0 <= j < i ==> visits[j] != 0
    } else {
        &&& forall|j: int| 0 <= j < visits.len() ==> keys[j] <= keys[i]
        &&& forall|j: int| 0 <= j < i ==> keys[j] < keys[i]
    }
}

/// Index `i` is the first of the most visited children.
pub open spec fn is_most_visited(visits: Seq<u32>, i: int) -> bool {
    &&& 0 <= i < visits.len()
    &&& forall|j: int| 0 <= j < visits.len() ==> visits[j] <= visits[i]
    &&& forall|j: int| 0 <= j < i ==> visits[j] < visits[i]
}

/// One more visit on one child adds one to the total.
pub proof fn lemma_total_bump(s: Seq<u32>, i: int)
    requires
        0 <= i < s.len(),
        s[i] < u32::MAX,
    ensures
        total(s.update(i, (s[i] + 1) as u32)) == total(s) + 1,
    decreases s.len(),
{
    let t = s.update(i, (s[i] + 1) as u32);
    if i < s.len() - 1 {
        lemma_total_bump(s.drop_last(), i);
        assert(t.drop_last() =~= s.drop_last().update(i, (s[i] + 1) as u32));
    } else {
        assert(t.drop_last() =~= s.drop_last());
    }
}

/// Merging is a sum: when every counter of `c` is the sum of the counters of
/// `a` and `b` at the same place, the total of `c` is the sum of the totals.
pub proof fn lemma_merged_total(a: Seq<u32>, b: Seq<u32>, c: Seq<u32>)
    requires
        a.len() == b.len() == c.len(),
        forall|i: int| 0 <= i < c.len() ==> c[i] == a[i] + b[i],
    ensures
        total(c) == total(a) + total(b),
    decreases c.len(),
{
    if c.len() > 0 {
        lemma_merged_total(a.drop_last(), b.drop_last(), c.drop_last());
    }
}

/// Selection never passes over a child without visits: when one exists,
/// the chosen child has none either, and comes no later.
pub proof fn lemma_unvisited_first(visits: Seq<u32>, keys: Seq<u64>, i: int, j: int)
    requires
        is_uct_choice(visits, keys, i),
        0 <= j < visits.len(),
        visits[j] == 0,
    ensures
        visits[i] == 0,
        i <= j,
{
}

/// The child that upper-confidence selection picks, from the children's
/// visit counts and the keys that order their scores.
pub fn choose_child(visits: &Vec<u32>, keys: &Vec<u64>) -> (r: usize)
    requires
        visits@.len() > 0,
        keys@.len() == visits@.len(),
    ensures
        is_uct_choice(visits@, keys@, r as int),
{
    let n = visits.len();
    let mut i: usize = 0;
    while i < n
        invariant
            n == visits@.len(),
            i <= n,
            forall|j: int| 0 <= j < i ==> visits@[j] != 0,
        decreases n - i,
    {
        if visits[i] == 0 {
            return i;
        }
        i = i + 1;
    }
    let mut best: usize = 0;
    let mut k: usize = 1;
    while k < n
        invariant
            n == visits@.len(),
            n == keys@.len(),
            best < k <= n,
            forall|j: int| 0 <= j < k ==> keys@[j] <= keys@[best as int],
            forall|j: int| 0 <= j < best ==> keys@[j] < keys@[best as int],
        decreases n - k,
    {
        if keys[k] > keys[best] {
            best = k;
        }
        k = k + 1;
    }
    best
}

/// How many iterations each of `workers` workers runs out of `iterations`.
pub fn iterations_per_worker(iterations: u32, workers: u8) -> (r: u32)
    requires
        workers > 0,
    ensures
        r == iterations / (workers as u32),
{
    iterations / (workers as u32)
}

/// The workers together run at most `iterations` iterations, and fewer by
/// less than one per worker.
pub proof fn lemma_split_iterations(iterations: u32, workers: u8)
    requires
        workers > 0,
    ensures
        iterations - (workers as int) < workers * (iterations / (workers as u32)) <= iterations,
{
    let w = workers as int;
    let q = (iterations / (workers as u32)) as int;
    let n = iterations as int;
    assert(q == n / w);
    vstd::arithmetic::div_mod::lemma_fundamental_div_mod(n, w);
    assert(0 <= n % w < w) by {
        vstd::arithmetic::div_mod::lemma_mod_bound(n, w);
    }
}

/// Sum of the totals of several workers' counters.
pub open spec fn totals_sum(ws: Seq<Seq<u32>>) -> int
    decreases ws.len(),
{
    if ws.len() == 0 {
        0
    } else {
        totals_sum(ws.drop_last()) + total(ws.last())
    }
}

proof fn lemma_totals_sum_equal(ws: Seq<Seq<u32>>, per: int)
    requires
        forall|i: int| 0 <= i < ws.len() ==> total(#[trigger] ws[i]) == per,
    ensures
        totals_sum(ws) == ws.len() * per,
    decreases ws.len(),
{
    if ws.len() > 0 {
        let rest = ws.drop_last();
        assert forall|i: int| 0 <= i < rest.len() implies total(#[trigger] rest[i]) == per by {
            assert(rest[i] == ws[i]);
        }
        lemma_totals_sum_equal(rest, per);
        assert(total(ws.last()) == per);
        assert(ws.len() * per == rest.len() * per + per) by (nonlinear_arith)
            requires
                ws.len() == rest.len() + 1,
        ;
    }
}

/// The budget of a parallel search: when each of `workers` workers runs its
/// share of `iterations`, every iteration adding one visit to its root's
/// children, the merged children's visits total `workers` times the share,
/// whatever the number of workers: the budget, less under one per worker.
pub proof fn lemma_search_budget(ws: Seq<Seq<u32>>, iterations: u32, workers: u8)
    requires
        workers > 0,
        ws.len() == workers,
        forall|i: int|
            0 <= i < ws.len() ==> total(#[trigger] ws[i]) == iterations / (workers as u32),
    ensures
        totals_sum(ws) == workers * (iterations / (workers as u32)),
        iterations - (workers as int) < totals_sum(ws) <= iterations,
{
    lemma_totals_sum_equal(ws, (iterations / (workers as u32)) as int);
    lemma_split_iterations(iterations, workers);
}

/// The moves of a two-player game as the search uses them.
pub trait MoveOps<Move> {
    /// The state is one the game can reach.
    spec fn ready(&self) -> bool;

    /// `m` is a legal move in this state.
    spec fn allows(&self, m: Move) -> bool;

    fn make_move(&mut self, move_: Move)
        requires
            old(self).ready(),
            old(self).allows(move_),
        ensures
            final(self).ready(),
    ;

    fn list_moves(&self) -> (r: Vec<Move>)
        requires
            self.ready(),
        ensures
            forall|i: int| 0 <= i < r@.len() ==> self.allows(#[trigger] r@[i]),
    ;

    fn simulate_random_game(&mut self) -> (r: bool)
        requires
            old(self).ready(),
        ensures
            final(self).ready(),
    ;
}

impl MoveOps<u8> for Board {
    open spec fn ready(&self) -> bool {
        self.wf()
    }

    open spec fn allows(&self, m: u8) -> bool {
        self.can_play(m)
    }

    fn make_move(&mut self, move_: u8) {
        Board::make_move(self, move_)
    }

    fn list_moves(&self) -> (r: Vec<u8>) {
        let r = Board::list_moves(self);
        proof {
            lemma_open_upto(self@, COLUMNS);
        }
        r
    }

    fn simulate_random_game(&mut self) -> (r: bool) {
        Board::simulate_random_game(self)
    }
}

/// A node of the search tree: a position, how many simulations passed
/// through it and how many of them were won, its children, and the move
/// that led to it.
pub struct Node {
    board: Board,
    visits: u32,
    wins: u32,
    children: Vec<Node>,
    move_: Option<u8>,
}

impl Node {
    pub closed spec fn position(&self) -> BoardView {
        self.board@
    }

    pub closed spec fn board_wf(&self) -> bool {
        self.board.wf()
    }

    pub closed spec fn visit_count(&self) -> u32 {
        self.visits
    }

    pub closed spec fn win_count(&self) -> u32 {
        self.wins
    }

    pub closed spec fn kids(&self) -> Seq<Node> {
        self.children@
    }

    pub closed spec fn played(&self) -> Option<u8> {
        self.move_
    }

    /// Visit counts of the children, in order.
    pub open spec fn kid_visits(&self) -> Seq<u32> {
        self.kids().map_values(|c: Node| c.visit_count())
    }

    /// Win counts of the children, in order.
    pub open spec fn kid_wins(&self) -> Seq<u32> {
        self.kids().map_values(|c: Node| c.win_count())
    }

    /// A node holds a valid position, never more wins than visits, and
    /// children that each hold a valid position and the move that made it.
    pub open spec fn wf(&self) -> bool {
        &&& self.board_wf()
        &&& self.win_count() <= self.visit_count()
        &&& forall|i: int|
            0 <= i < self.kids().len() ==> {
                &&& (#[trigger] self.kids()[i]).board_wf()
                &&& self.kids()[i].win_count() <= self.kids()[i].visit_count()
                &&& self.kids()[i].played() is Some
            }
    }

    /// The same node, as far as anything but the counters of the node and of
    /// its children go.
    pub open spec fn same_shape(&self, other: &Node) -> bool {
        &&& self.position() == other.position()
        &&& self.played() == other.played()
        &&& self.kids().len() == other.kids().len()
        &&& forall|i: int|
            0 <= i < self.kids().len() ==> {
                &&& (#[trigger] self.kids()[i]).position() == other.kids()[i].position()
                &&& self.kids()[i].played() == other.kids()[i].played()
                &&& self.kids()[i].kids() == other.kids()[i].kids()
            }
    }

    /// A fresh leaf for `board`, with no statistics.
    pub fn new(board: Board) -> (r: Self)
        requires
            board.wf(),
        ensures
            r.wf(),
            r.position() == board@,
            r.visit_count() == 0,
            r.win_count() == 0,
            r.kids().len() == 0,
            r.played() is None,
    {
        Node { board, visits: 0, wins: 0, children: Vec::new(), move_: None }
    }

    /// Picks the child to simulate from by upper-confidence selection, given
    /// one key per child that orders the children's scores. `None` stands for
    /// the node itself, when it has no children.
    pub fn select(&self, keys: &Vec<u64>) -> (r: Option<usize>)
        requires
            keys@.len() == self.kids().len(),
        ensures
            r is None <==> self.kids().len() == 0,
            r matches Some(i) ==> is_uct_choice(self.kid_visits(), keys@, i as int),
    {
        let n = self.children.len();
        if n == 0 {
            return None;
        }
        let mut visits: Vec<u32> = Vec::new();
        let mut i: usize = 0;
        while i < n
            invariant
                n == self.children@.len(),
                i <= n,
                visits@ == self.kid_visits().take(i as int),
            decreases n - i,
        {
            visits.push(self.children[i].visits);
            i = i + 1;
            assert(visits@ =~= self.kid_visits().take(i as int));
        }
        assert(visits@ =~= self.kid_visits());
        Some(choose_child(&visits, keys))
    }

    /// Gives the node one child for each legal move of its position, in the
    /// order of the columns.
    pub fn expand(&mut self)
        requires
            old(self).wf(),
            old(self).kids().len() == 0,
        ensures
            final(self).wf(),
            final(self).position() == old(self).position(),
            final(self).visit_count() == old(self).visit_count(),
            final(self).win_count() == old(self).win_count(),
            final(self).played() == old(self).played(),
            final(self).kids().len() == old(self).position().legal_moves().len(),
            forall|i: int|
                0 <= i < final(self).kids().len() ==> {
                    let c = #[trigger] final(self).kids()[i];
                    let mv = old(self).position().legal_moves()[i];
                    &&& c.position() == old(self).position().apply(mv)
                    &&& c.played() == Some(mv)
                    &&& c.visit_count() == 0
                    &&& c.win_count() == 0
                    &&& c.kids().len() == 0
                },
    {
        let moves = self.board.list_moves();
        let mut idx: usize = 0;
        while idx < moves.len()
            invariant
                self.board.wf(),
                self.board@ == old(self).board@,
                self.visits == old(self).visits,
                self.wins == old(self).wins,
                self.wins <= self.visits,
                self.move_ == old(self).move_,
                moves@ == self.board@.legal_moves(),
                idx <= moves@.len(),
                self.children@.len() == idx,
                forall|i: int|
                    0 <= i < idx ==> {
                        let c = #[trigger] self.children@[i];
                        &&& c.board.wf()
                        &&& c.board@ == self.board@.apply(moves@[i])
                        &&& c.move_ == Some(moves@[i])
                        &&& c.visits == 0
                        &&& c.wins == 0
                        &&& c.children@.len() == 0
                    },
            decreases moves@.len() - idx,
        {
            let mv = moves[idx];
            proof {
                lemma_open_upto(self.board@, COLUMNS);
            }
            assert(self.board@.open_upto(COLUMNS)[idx as int] == mv);
            let mut next = self.board.clone();
            next.make_move(mv);
            let mut child = Node::new(next);
            child.move_ = Some(mv);
            self.children.push(child);
            idx = idx + 1;
        }
    }

    /// Runs one random playout from the node's position; the node is left
    /// as it was.
    pub fn simulate(&mut self) -> (r: bool)
        requires
            old(self).board_wf(),
        ensures
            playout_result(old(self).position(), r),
            final(self).position() == old(self).position(),
            final(self).board_wf(),
            final(self).visit_count() == old(self).visit_count(),
            final(self).win_count() == old(self).win_count(),
            final(self).kids() == old(self).kids(),
            final(self).played() == old(self).played(),
    {
        self.board.simulate_random_game()
    }

    /// The move of the first of the most visited children.
    pub fn best_move(&self) -> (r: u8)
        requires
            self.wf(),
            self.kids().len() > 0,
        ensures
            exists|i: int|
                is_most_visited(self.kid_visits(), i) && self.kids()[i].played() == Some(r),
    {
        let n = self.children.len();
        let mut best: usize = 0;
        let mut k: usize = 1;
        while k < n
            invariant
                n == self.children@.len(),
                best < k <= n,
                forall|j: int| 0 <= j < k ==> self.kid_visits()[j] <= self.kid_visits()[best as int],
                forall|j: int| 0 <= j < best ==> self.kid_visits()[j] < self.kid_visits()[best as int],
            decreases n - k,
        {
            if self.children[k].visits > self.children[best].visits {
                best = k;
            }
            k = k + 1;
        }
        let mv = self.children[best].move_;
        assert(self.kids()[best as int].played() is Some);
        assert(is_most_visited(self.kid_visits(), best as int));
        mv.unwrap()
    }

    /// One step of the search: selects a child by the given keys, runs a
    /// playout from it, and counts the outcome on that child and on this
    /// node. A node without children plays out from itself and counts the
    /// outcome twice, once as the selected node and once as the root.
    pub fn run_iteration(&mut self, keys: &Vec<u64>) -> (r: bool)
        requires
            old(self).wf(),
            keys@.len() == old(self).kids().len(),
            old(self).visit_count() <= u32::MAX - 2,
            forall|i: int| 0 <= i < old(self).kids().len() ==> old(self).kid_visits()[i] < u32::MAX,
        ensures
            final(self).wf(),
            final(self).same_shape(old(self)),
            old(self).kids().len() > 0 ==> exists|i: int|
                {
                    &&& is_uct_choice(old(self).kid_visits(), keys@, i)
                    &&& playout_result(old(self).kids()[i].position(), r)
                    &&& final(self).kid_visits() == old(self).kid_visits().update(
                        i,
                        (old(self).kid_visits()[i] + 1) as u32,
                    )
                    &&& final(self).kid_wins() == old(self).kid_wins().update(
                        i,
                        (old(self).kid_wins()[i] + if r { 1int } else { 0int }) as u32,
                    )
                },
            old(self).kids().len() > 0 ==> total(final(self).kid_visits()) == total(
                old(self).kid_visits(),
            ) + 1,
            old(self).kids().len() > 0 ==> final(self).visit_count() == old(self).visit_count() + 1,
            old(self).kids().len() > 0 ==> final(self).win_count() == old(self).win_count() + if r {
                1int
            } else {
                0int
            },
            old(self).kids().len() == 0 ==> playout_result(old(self).position(), r),
            old(self).kids().len() == 0 ==> final(self).visit_count() == old(self).visit_count() + 2,
            old(self).kids().len() == 0 ==> final(self).win_count() == old(self).win_count() + if r {
                2int
            } else {
                0int
            },
    {
        match self.select(keys) {
            Some(i) => {
                let ghost before = self.children@;
                let result = self.children[i].simulate();
                self.children[i].backpropagate(result);
                self.backpropagate(result);
                proof {
                    assert(self.kid_visits() =~= old(self).kid_visits().update(
                        i as int,
                        (old(self).kid_visits()[i as int] + 1) as u32,
                    ));
                    assert(self.kid_wins() =~= old(self).kid_wins().update(
                        i as int,
                        (old(self).kid_wins()[i as int] + if result { 1int } else { 0int }) as u32,
                    ));
                    lemma_total_bump(old(self).kid_visits(), i as int);
                }
                result
            },
            None => {
                let result = self.simulate();
                self.backpropagate(result);
                self.backpropagate(result);
                result
            },
        }
    }

    /// Adds the children's counters of `other`, a node expanded from the
    /// same position, to those of this node's children, place by place.
    pub fn add_child_stats(&mut self, other: &Node)
        requires
            old(self).wf(),
            other.wf(),
            other.kids().len() == old(self).kids().len(),
            forall|i: int|
                0 <= i < old(self).kids().len() ==> old(self).kid_visits()[i] + other.kid_visits()[i]
                    <= u32::MAX,
        ensures
            final(self).wf(),
            final(self).same_shape(old(self)),
            final(self).visit_count() == old(self).visit_count(),
            final(self).win_count() == old(self).win_count(),
            forall|i: int|
                0 <= i < final(self).kids().len() ==> final(self).kid_visits()[i]
                    == old(self).kid_visits()[i] + other.kid_visits()[i]
                    && final(self).kid_wins()[i] == old(self).kid_wins()[i] + other.kid_wins()[i],
    {
        let n = self.children.len();
        let mut i: usize = 0;
        while i < n
            invariant
                n == self.children@.len(),
                n == other.children@.len(),
                n == old(self).children@.len(),
                i <= n,
                self.board == old(self).board,
                self.visits == old(self).visits,
                self.wins == old(self).wins,
                self.move_ == old(self).move_,
                other.wf(),
                old(self).wf(),
                forall|j: int|
                    0 <= j < n ==> old(self).kid_visits()[j] + other.kid_visits()[j] <= u32::MAX,
                forall|j: int|
                    0 <= j < n ==> {
                        let c = #[trigger] self.children@[j];
                        let o = old(self).children@[j];
                        &&& c.board == o.board
                        &&& c.move_ == o.move_
                        &&& c.children == o.children
                        &&& j < i ==> c.visits == o.visits + other.children@[j].visits
                        &&& j < i ==> c.wins == o.wins + other.children@[j].wins
                        &&& j >= i ==> c.visits == o.visits && c.wins == o.wins
                    },
            decreases n - i,
        {
            let add_visits = other.children[i].visits;
            let add_wins = other.children[i].wins;
            proof {
                assert(old(self).kids()[i as int].win_count() <= old(self).kids()[i as int].visit_count());
                assert(other.kids()[i as int].win_count() <= other.kids()[i as int].visit_count());
                assert(old(self).kid_visits()[i as int] + other.kid_visits()[i as int] <= u32::MAX);
            }
            self.children[i].visits = self.children[i].visits + add_visits;
            self.children[i].wins = self.children[i].wins + add_wins;
            i = i + 1;
        }
    }

    /// How many simulations passed through the node.
    pub fn visits(&self) -> (r: u32)
        ensures
            r == self.visit_count(),
    {
        self.visits
    }

    /// How many of those simulations were won.
    pub fn wins(&self) -> (r: u32)
        ensures
            r == self.win_count(),
    {
        self.wins
    }

    /// The move that led to this node, `None` at the root.
    pub fn last_move(&self) -> (r: Option<u8>)
        ensures
            r == self.played(),
    {
        self.move_
    }

    pub fn child_count(&self) -> (r: usize)
        ensures
            r == self.kids().len(),
    {
        self.children.len()
    }

    /// The child at place `i`.
    pub fn child(&self, i: usize) -> (r: &Node)
        requires
            i < self.kids().len(),
        ensures
            *r == self.kids()[i as int],
    {
        &self.children[i]
    }

    /// Adds one simulation with outcome `result` to the node's counters.
    pub fn backpropagate(&mut self, result: bool)
        requires
            old(self).win_count() <= old(self).visit_count() < u32::MAX,
        ensures
            final(self).visit_count() == old(self).visit_count() + 1,
            final(self).win_count() == old(self).win_count() + if result { 1int } else { 0int },
            final(self).position() == old(self).position(),
            final(self).board_wf() == old(self).board_wf(),
            final(self).kids() == old(self).kids(),
            final(self).played() == old(self).played(),
            old(self).wf() ==> final(self).wf(),
    {
        self.visits = self.visits + 1;
        if result {
            self.wins = self.wins + 1;
        }
    }
}

} // verus!
