//! The search engine: a depth-first, branch-and-bound exploration of the
//! card multiset. It consumes the trajectory simulator through a memo
//! table, avoids revisiting positions within one candidate sequence, and
//! keeps the cheapest solution found.

use vstd::prelude::*;
use crate::model::Board;
use crate::model::Card;
use crate::model::Direction;
use crate::model::Location;
use crate::model::Terrain;
use crate::model::Tile;
use crate::model::MAX_BOARD_TILES;
use crate::model::MAX_CARD_DISTANCE;
use crate::model::MOVE_COST_LIMIT;
use crate::sim::portals_closed;
use crate::sim::sim_outcome;
use crate::sim::try_move;

verus! {

/// Largest total card count (the sum of all per-value quotas) the solver
/// accepts; keeps the total-cost arithmetic inside `i32`.
pub const MAX_TOTAL_CARD_COUNT: i32 = 1_000;

/// Magnitude bound on a caller-supplied cost bound; keeps the bound
/// arithmetic inside `i32`.
pub const SOLVER_BOUND_LIMIT: i32 = 1_000_000_000;

/// The sum of a sequence of per-card counts.
pub open spec fn counts_sum(s: Seq<i32>) -> int
    decreases s.len(),
{
    if s.len() == 0 {
        0
    } else {
        s[0] + counts_sum(s.drop_first())
    }
}

/// The total cost of an ordered list of moves.
pub open spec fn move_total(moves: Seq<(Card, Direction, i32)>) -> int
    decreases moves.len(),
{
    if moves.len() == 0 {
        0
    } else {
        moves[0].2 + move_total(moves.drop_first())
    }
}

/// How many moves of the list play this card value.
pub open spec fn uses_of_card(moves: Seq<(Card, Direction, i32)>, c: Card) -> int
    decreases moves.len(),
{
    if moves.len() == 0 {
        0
    } else {
        (if moves[0].0 == c {
            1int
        } else {
            0int
        }) + uses_of_card(moves.drop_first(), c)
    }
}

/// Is this an exact walk into the hole? Each move's simulation succeeds
/// with the recorded cost, each end position feeds the next move, and the
/// position after the last move is the hole.
pub open spec fn solution_leads_to_hole(
    board: Map<Location, Tile>,
    pos: Location,
    moves: Seq<(Card, Direction, i32)>,
) -> bool
    decreases moves.len(),
{
    if moves.len() == 0 {
        board.contains_key(pos) && board[pos].terrain is Hole
    } else {
        match sim_outcome(board, pos, moves[0].0, moves[0].1) {
            Some(end) => end.1 == moves[0].2 as int && solution_leads_to_hole(
                board,
                end.0,
                moves.drop_first(),
            ),
            None => false,
        }
    }
}

/// The shape of a returned solution: a real walk from `pos` into the
/// hole, every move's cost within the simulator's bounds, and no card
/// value used more often than its quota allows. The solver additionally
/// promises [`path_clear`] of the result and cost-minimality over every
/// [`candidate_solution`].
pub open spec fn good_solution(
    board: Map<Location, Tile>,
    pos: Location,
    cards: Seq<Card>,
    counts: Seq<i32>,
    sol: Seq<(Card, Direction, i32)>,
) -> bool {
    &&& sol.len() >= 1
    &&& sol.len() <= counts_sum(counts)
    &&& solution_leads_to_hole(board, pos, sol)
    &&& forall|k: int| 0 <= k < sol.len() ==> 3 <= (#[trigger] sol[k]).2 <= MOVE_COST_LIMIT
    &&& forall|i: int| 0 <= i < cards.len() ==> uses_of_card(sol, #[trigger] cards[i]) <= counts[i]
    &&& forall|k: int|
        0 <= k < sol.len() ==> exists|i: int|
            0 <= i < cards.len() && (#[trigger] sol[k]).0 == cards[i]
}

/// The order in which the solver tries the four directions of a card.
pub open spec fn dir_order(d: Direction) -> int {
    match d {
        Direction::North => 0,
        Direction::South => 1,
        Direction::West => 2,
        Direction::East => 3,
    }
}

/// Does the walk keep to fresh ground? No move except the last may end on
/// a hole (the game would stop there), on a position of `stack`, or on a
/// position the walk has already stood on (`pos` included) — the cycle
/// rule of the search.
pub open spec fn path_clear(
    board: Map<Location, Tile>,
    stack: Seq<Location>,
    pos: Location,
    moves: Seq<(Card, Direction, i32)>,
) -> bool
    decreases moves.len(),
{
    if moves.len() <= 1 {
        true
    } else {
        match sim_outcome(board, pos, moves[0].0, moves[0].1) {
            Some(end) => {
                &&& !(board.contains_key(end.0) && board[end.0].terrain is Hole)
                &&& !stack.push(pos).contains(end.0)
                &&& path_clear(board, stack.push(pos), end.0, moves.drop_first())
            },
            None => false,
        }
    }
}

/// A playable candidate for the search: at least one move, a real
/// simulated walk from `pos` into the hole that keeps to fresh ground
/// with respect to `stack`, every card drawn from `cards`, and no card
/// value used beyond its quota in `counts`.
pub open spec fn candidate_solution(
    board: Map<Location, Tile>,
    stack: Seq<Location>,
    pos: Location,
    cards: Seq<Card>,
    counts: Seq<i32>,
    moves: Seq<(Card, Direction, i32)>,
) -> bool {
    &&& moves.len() >= 1
    &&& solution_leads_to_hole(board, pos, moves)
    &&& path_clear(board, stack, pos, moves)
    &&& forall|k: int| 0 <= k < cards.len() ==> uses_of_card(moves, #[trigger] cards[k]) <= counts[k]
    &&& forall|k: int|
        0 <= k < moves.len() ==> exists|c: int|
            0 <= c < cards.len() && (#[trigger] moves[k]).0 == cards[c]
}

/// Does the walk cost strictly less than the bound, where one is given?
pub open spec fn beats(moves: Seq<(Card, Direction, i32)>, bound: Option<i32>) -> bool {
    bound matches Some(m) ==> move_total(moves) < m
}

/// Does the walk open with a (card, direction) pair the solver has
/// already fully explored when it stands at card `i`, direction `j`?
spec fn starts_before(moves: Seq<(Card, Direction, i32)>, cards: Seq<Card>, i: int, j: int) -> bool {
    exists|idx: int|
        0 <= idx < cards.len() && moves[0].0 == cards[idx] && (idx < i || (idx == i && dir_order(
            moves[0].1,
        ) < j))
}

proof fn lemma_uses_nonneg(moves: Seq<(Card, Direction, i32)>, c: Card)
    ensures
        uses_of_card(moves, c) >= 0,
    decreases moves.len(),
{
    if moves.len() > 0 {
        lemma_uses_nonneg(moves.drop_first(), c);
    }
}

proof fn lemma_leads_costs(board: Map<Location, Tile>, pos: Location, moves: Seq<(Card, Direction, i32)>)
    requires
        board.dom().finite(),
        solution_leads_to_hole(board, pos, moves),
        forall|k: int|
            0 <= k < moves.len() ==> (#[trigger] moves[k]).0.rolling >= 0 && moves[k].0.airborne
                >= 0,
    ensures
        forall|k: int| 0 <= k < moves.len() ==> (#[trigger] moves[k]).2 >= 3,
        move_total(moves) >= 3 * moves.len(),
    decreases moves.len(),
{
    if moves.len() > 0 {
        let first = moves[0];
        let end = sim_outcome(board, pos, first.0, first.1)->Some_0;
        crate::sim::lemma_sim_cost_lower(
            board,
            pos,
            first.1,
            first.0.rolling as int,
            first.0.airborne as int,
            pos,
            3,
            Set::empty(),
        );
        assert(end.1 >= 3);
        assert(forall|k: int|
            0 <= k < moves.drop_first().len() ==> #[trigger] moves.drop_first()[k] == moves[k + 1]);
        lemma_leads_costs(board, end.0, moves.drop_first());
        assert forall|k: int| 0 <= k < moves.len() implies (#[trigger] moves[k]).2 >= 3 by {
            if k > 0 {
                assert(moves.drop_first()[k - 1] == moves[k]);
            }
        }
    }
}

proof fn lemma_counts_sum_nonneg(s: Seq<i32>)
    requires
        forall|i: int| 0 <= i < s.len() ==> #[trigger] s[i] >= 0,
    ensures
        counts_sum(s) >= 0,
    decreases s.len(),
{
    if s.len() > 0 {
        assert(forall|i: int|
            0 <= i < s.drop_first().len() ==> #[trigger] s.drop_first()[i] == s[i + 1]);
        lemma_counts_sum_nonneg(s.drop_first());
    }
}

proof fn lemma_counts_sum_update(s: Seq<i32>, i: int, v: i32)
    requires
        0 <= i < s.len(),
    ensures
        counts_sum(s.update(i, v)) == counts_sum(s) - s[i] + v,
    decreases s.len(),
{
    let s2 = s.update(i, v);
    if i == 0 {
        assert(s2.drop_first() =~= s.drop_first());
    } else {
        assert(s2.drop_first() =~= s.drop_first().update(i - 1, v));
        lemma_counts_sum_update(s.drop_first(), i - 1, v);
    }
}

proof fn lemma_move_total_push(s: Seq<(Card, Direction, i32)>, x: (Card, Direction, i32))
    ensures
        move_total(s.push(x)) == move_total(s) + x.2,
    decreases s.len(),
{
    let sp = s.push(x);
    assert(sp.len() == s.len() + 1);
    if s.len() == 0 {
        assert(sp[0] == x);
        assert(sp.drop_first() =~= Seq::<(Card, Direction, i32)>::empty());
        assert(move_total(sp.drop_first()) == 0);
        assert(move_total(sp) == x.2);
    } else {
        assert(sp[0] == s[0]);
        assert(sp.drop_first() =~= s.drop_first().push(x));
        lemma_move_total_push(s.drop_first(), x);
        assert(move_total(sp) == sp[0].2 + move_total(sp.drop_first()));
    }
}

/// The total cost of a solution, as the moves record it.
fn solution_total(moves: &Vec<(Card, Direction, i32)>) -> (t: i32)
    requires
        moves@.len() <= 2000,
        forall|k: int| 0 <= k < moves@.len() ==> 3 <= (#[trigger] moves@[k]).2 <= MOVE_COST_LIMIT,
    ensures
        t as int == move_total(moves@),
        3 * moves@.len() <= t as int <= MOVE_COST_LIMIT * moves@.len(),
{
    let mut acc: i32 = 0;
    let mut k: usize = 0;
    proof {
        assert(moves@.take(0) =~= Seq::<(Card, Direction, i32)>::empty());
    }
    while k < moves.len()
        invariant
            0 <= k <= moves@.len(),
            moves@.len() <= 2000,
            forall|j: int| 0 <= j < moves@.len() ==> 3 <= (#[trigger] moves@[j]).2
                <= MOVE_COST_LIMIT,
            acc as int == move_total(moves@.take(k as int)),
            3 * k <= acc as int <= MOVE_COST_LIMIT * k,
        decreases moves@.len() - k,
    {
        proof {
            assert(moves@.take(k + 1) =~= moves@.take(k as int).push(moves@[k as int]));
            lemma_move_total_push(moves@.take(k as int), moves@[k as int]);
        }
        acc = acc + moves[k].2;
        k += 1;
    }
    proof {
        assert(moves@.take(moves@.len() as int) =~= moves@);
    }
    acc
}

/// Has this position already been visited earlier in the current path?
fn path_holds(v: &Vec<Location>, l: &Location) -> (r: bool)
    ensures
        r == v@.contains(*l),
{
    let mut i: usize = 0;
    while i < v.len()
        invariant
            0 <= i <= v@.len(),
            forall|k: int| 0 <= k < i ==> #[trigger] v@[k] != *l,
        decreases v@.len() - i,
    {
        if v[i] == *l {
            assert(v@[i as int] == *l);
            return true;
        }
        i += 1;
    }
    false
}

proof fn lemma_counts_sum_lower(s: Seq<i32>, i: int)
    requires
        forall|k: int| 0 <= k < s.len() ==> #[trigger] s[k] >= 0,
        0 <= i < s.len(),
    ensures
        counts_sum(s) >= s[i],
    decreases s.len(),
{
    assert(forall|k: int|
        0 <= k < s.drop_first().len() ==> #[trigger] s.drop_first()[k] == s[k + 1]);
    if i == 0 {
        lemma_counts_sum_nonneg(s.drop_first());
    } else {
        lemma_counts_sum_lower(s.drop_first(), i - 1);
    }
}

proof fn lemma_candidate_tail(
    board: Map<Location, Tile>,
    stack: Seq<Location>,
    pos: Location,
    cards: Seq<Card>,
    counts: Seq<i32>,
    moves: Seq<(Card, Direction, i32)>,
    i: int,
)
    requires
        candidate_solution(board, stack, pos, cards, counts, moves),
        moves.len() >= 2,
        cards.len() == counts.len(),
        forall|a: int, b: int| 0 <= a < b < cards.len() ==> cards[a] != cards[b],
        0 <= i < cards.len(),
        moves[0].0 == cards[i],
    ensures
        counts[i] >= 1,
        sim_outcome(board, pos, moves[0].0, moves[0].1) matches Some(end) && ({
            &&& end.1 == moves[0].2 as int
            &&& !(board.contains_key(end.0) && board[end.0].terrain is Hole)
            &&& !stack.push(pos).contains(end.0)
            &&& candidate_solution(
                board,
                stack.push(pos),
                end.0,
                cards,
                counts.update(i, (counts[i] - 1) as i32),
                moves.drop_first(),
            )
        }),
{
    let rest = moves.drop_first();
    let counts2 = counts.update(i, (counts[i] - 1) as i32);
    lemma_uses_nonneg(rest, cards[i]);
    assert(uses_of_card(moves, cards[i]) == 1 + uses_of_card(rest, cards[i]));
    assert(counts[i] >= 1);
    let end = sim_outcome(board, pos, moves[0].0, moves[0].1)->Some_0;
    assert forall|k: int| 0 <= k < cards.len() implies uses_of_card(rest, #[trigger] cards[k])
        <= counts2[k] by {
        assert(uses_of_card(moves, cards[k]) == (if moves[0].0 == cards[k] {
            1int
        } else {
            0int
        }) + uses_of_card(rest, cards[k]));
        if k != i {
            assert(cards[k] != cards[i]);
        }
    }
    assert forall|k: int| 0 <= k < rest.len() implies exists|c: int|
        0 <= c < cards.len() && (#[trigger] rest[k]).0 == cards[c] by {
        assert(rest[k] == moves[k + 1]);
        let c = choose|c: int| 0 <= c < cards.len() && (#[trigger] moves[k + 1]).0 == cards[c];
        assert(rest[k].0 == cards[c]);
    }
}

proof fn lemma_singleton_solution(
    board: Map<Location, Tile>,
    pos: Location,
    cards: Seq<Card>,
    counts: Seq<i32>,
    t: (Card, Direction, i32),
    i: int,
)
    requires
        cards.len() == counts.len(),
        0 <= i < cards.len(),
        forall|a: int, b: int| 0 <= a < b < cards.len() ==> cards[a] != cards[b],
        forall|k: int| 0 <= k < counts.len() ==> #[trigger] counts[k] >= 0,
        counts[i] >= 1,
        t.0 == cards[i],
        3 <= t.2 <= MOVE_COST_LIMIT,
        sim_outcome(board, pos, t.0, t.1) == Some((sim_outcome(board, pos, t.0, t.1)->Some_0.0, t.2 as int)),
        board.contains_key(sim_outcome(board, pos, t.0, t.1)->Some_0.0),
        board[sim_outcome(board, pos, t.0, t.1)->Some_0.0].terrain is Hole,
    ensures
        good_solution(board, pos, cards, counts, seq![t]),
        move_total(seq![t]) == t.2,
{
    let s = seq![t];
    assert(s[0] == t);
    assert(s.drop_first() =~= Seq::<(Card, Direction, i32)>::empty());
    lemma_counts_sum_lower(counts, i);
    let end = sim_outcome(board, pos, t.0, t.1)->Some_0.0;
    assert(solution_leads_to_hole(board, end, s.drop_first()));
    assert(solution_leads_to_hole(board, pos, s));
    assert forall|k: int| 0 <= k < cards.len() implies uses_of_card(s, #[trigger] cards[k])
        <= counts[k] by {
        assert(uses_of_card(s, cards[k]) == (if s[0].0 == cards[k] {
            1int
        } else {
            0int
        }) + uses_of_card(s.drop_first(), cards[k]));
        assert(uses_of_card(Seq::<(Card, Direction, i32)>::empty(), cards[k]) == 0);
        if k == i {
            assert(uses_of_card(s, cards[k]) == 1);
        } else {
            assert(cards[k] != cards[i]);
            assert(uses_of_card(s, cards[k]) == 0);
        }
    }
    assert forall|k: int| 0 <= k < s.len() implies exists|c: int|
        0 <= c < cards.len() && (#[trigger] s[k]).0 == cards[c] by {
        assert(s[0].0 == cards[i]);
    }
    assert(move_total(s) == s[0].2 + move_total(s.drop_first()));
    assert(move_total(Seq::<(Card, Direction, i32)>::empty()) == 0);
}

proof fn lemma_prepend_solution(
    board: Map<Location, Tile>,
    stack: Seq<Location>,
    pos: Location,
    next: Location,
    cards: Seq<Card>,
    counts: Seq<i32>,
    i: int,
    t: (Card, Direction, i32),
    rest: Seq<(Card, Direction, i32)>,
)
    requires
        cards.len() == counts.len(),
        0 <= i < cards.len(),
        forall|a: int, b: int| 0 <= a < b < cards.len() ==> cards[a] != cards[b],
        forall|k: int| 0 <= k < counts.len() ==> #[trigger] counts[k] >= 0,
        counts[i] >= 1,
        t.0 == cards[i],
        3 <= t.2 <= MOVE_COST_LIMIT,
        sim_outcome(board, pos, t.0, t.1) == Some((next, t.2 as int)),
        good_solution(board, next, cards, counts.update(i, (counts[i] - 1) as i32), rest),
        !(board.contains_key(next) && board[next].terrain is Hole),
        !stack.push(pos).contains(next),
        path_clear(board, stack.push(pos), next, rest),
    ensures
        good_solution(board, pos, cards, counts, rest.insert(0, t)),
        path_clear(board, stack, pos, rest.insert(0, t)),
        move_total(rest.insert(0, t)) == t.2 + move_total(rest),
{
    let counts_dec = counts.update(i, (counts[i] - 1) as i32);
    let s = rest.insert(0, t);
    assert(s.len() == rest.len() + 1);
    assert(s[0] == t);
    assert(s.drop_first() =~= rest);
    lemma_counts_sum_update(counts, i, (counts[i] - 1) as i32);
    assert(counts_sum(counts_dec) == counts_sum(counts) - 1);
    assert(solution_leads_to_hole(board, pos, s));
    assert forall|k: int| 0 <= k < s.len() implies 3 <= (#[trigger] s[k]).2
        <= MOVE_COST_LIMIT by {
        if k > 0 {
            assert(s[k] == rest[k - 1]);
        }
    }
    assert forall|k: int| 0 <= k < cards.len() implies uses_of_card(s, #[trigger] cards[k])
        <= counts[k] by {
        assert(uses_of_card(s, cards[k]) == (if t.0 == cards[k] {
            1int
        } else {
            0int
        }) + uses_of_card(rest, cards[k]));
        if k == i {
            assert(uses_of_card(rest, cards[k]) <= counts_dec[i]);
        } else {
            assert(cards[k] != cards[i]);
            assert(uses_of_card(rest, cards[k]) <= counts_dec[k]);
            assert(counts_dec[k] == counts[k]);
        }
    }
    assert forall|k: int| 0 <= k < s.len() implies exists|c: int|
        0 <= c < cards.len() && (#[trigger] s[k]).0 == cards[c] by {
        if k == 0 {
            assert(s[0].0 == cards[i]);
        } else {
            assert(s[k] == rest[k - 1]);
            let c = choose|c: int| 0 <= c < cards.len() && rest[k - 1].0 == cards[c];
            assert(s[k].0 == cards[c]);
        }
    }
}

/// One remembered simulator verdict.
type MemoEntry = (Location, Card, Direction, Option<(Location, i32)>);

spec fn memo_entry_ok(board: Map<Location, Tile>, e: MemoEntry) -> bool {
    match e.3 {
        Some(res) => sim_outcome(board, e.0, e.1, e.2) == Some((res.0, res.1 as int))
            && board.contains_key(res.0) && 3 <= res.1 <= MOVE_COST_LIMIT,
        None => sim_outcome(board, e.0, e.1, e.2) is None,
    }
}

/// A memo of simulator verdicts, keyed by (position, card, direction).
/// Sound because the simulator is deterministic and the board never
/// changes during a solve.
pub struct MemoTable {
    entries: Vec<MemoEntry>,
}

impl MemoTable {
    /// Every remembered verdict agrees with the simulation on this board.
    pub closed spec fn wf(&self, board: Map<Location, Tile>) -> bool {
        forall|k: int|
            0 <= k < self.entries@.len() ==> memo_entry_ok(board, #[trigger] self.entries@[k])
    }

    /// Does the memo hold this verdict under this (position, card,
    /// direction) key? The solver only ever adds entries, never drops or
    /// changes one.
    pub closed spec fn remembers(
        &self,
        pos: Location,
        card: Card,
        dir: Direction,
        v: Option<(Location, i32)>,
    ) -> bool {
        self.entries@.contains((pos, card, dir, v))
    }

    /// An empty memo, fit for any board.
    pub fn new() -> (m: MemoTable)
        ensures
            forall|b: Map<Location, Tile>| #[trigger] m.wf(b),
    {
        MemoTable { entries: Vec::new() }
    }

    fn lookup(
        &self,
        pos: Location,
        card: Card,
        dir: Direction,
        Ghost(board): Ghost<Map<Location, Tile>>,
    ) -> (r: Option<Option<(Location, i32)>>)
        requires
            self.wf(board),
        ensures
            r matches Some(v) ==> memo_entry_ok(board, (pos, card, dir, v)),
    {
        let mut i: usize = 0;
        while i < self.entries.len()
            invariant
                self.wf(board),
                0 <= i <= self.entries@.len(),
            decreases self.entries@.len() - i,
        {
            let e = &self.entries[i];
            if e.0 == pos && e.1 == card && e.2 == dir {
                return Some(e.3);
            }
            i += 1;
        }
        None
    }

    fn record(
        &mut self,
        pos: Location,
        card: Card,
        dir: Direction,
        v: Option<(Location, i32)>,
        Ghost(board): Ghost<Map<Location, Tile>>,
    )
        requires
            old(self).wf(board),
            memo_entry_ok(board, (pos, card, dir, v)),
        ensures
            final(self).wf(board),
            final(self).remembers(pos, card, dir, v),
            forall|p: Location, c: Card, d: Direction, w: Option<(Location, i32)>|
                old(self).remembers(p, c, d, w) ==> final(self).remembers(p, c, d, w),
    {
        broadcast use vstd::seq_lib::lemma_seq_contains_after_push;

        self.entries.push((pos, card, dir, v));
    }
}

/// What the first move of any playable candidate looks like: its
/// simulation succeeds with the recorded cost, a one-move candidate ends
/// in the hole, and a longer one steps onto fresh non-hole ground and
/// leaves a candidate for the position it reaches, with the played card's
/// quota reduced.
proof fn lemma_candidate_first_move(
    board: Map<Location, Tile>,
    stack: Seq<Location>,
    pos: Location,
    cards: Seq<Card>,
    counts: Seq<i32>,
    i: int,
    sol: Seq<(Card, Direction, i32)>,
)
    requires
        board.dom().finite(),
        candidate_solution(board, stack, pos, cards, counts, sol),
        cards.len() == counts.len(),
        forall|a: int, b: int| 0 <= a < b < cards.len() ==> cards[a] != cards[b],
        forall|k: int|
            0 <= k < cards.len() ==> (#[trigger] cards[k]).rolling >= 0 && cards[k].airborne >= 0,
        0 <= i < cards.len(),
        sol[0].0 == cards[i],
    ensures
        sim_outcome(board, pos, sol[0].0, sol[0].1) matches Some(end) && ({
            &&& end.1 == sol[0].2 as int
            &&& move_total(sol) == sol[0].2 + move_total(sol.drop_first())
            &&& move_total(sol.drop_first()) >= 0
            &&& counts[i] >= 1
            &&& (sol.len() == 1 ==> board.contains_key(end.0) && board[end.0].terrain is Hole
                && move_total(sol) == sol[0].2)
            &&& (sol.len() >= 2 ==> !(board.contains_key(end.0) && board[end.0].terrain is Hole)
                && !stack.push(pos).contains(end.0) && candidate_solution(
                board,
                stack.push(pos),
                end.0,
                cards,
                counts.update(i, (counts[i] - 1) as i32),
                sol.drop_first(),
            ))
        }),
{
    let end = sim_outcome(board, pos, sol[0].0, sol[0].1)->Some_0;
    let rest = sol.drop_first();
    assert forall|k: int| 0 <= k < sol.len() implies (#[trigger] sol[k]).0.rolling >= 0
        && sol[k].0.airborne >= 0 by {
        let c = choose|c: int| 0 <= c < cards.len() && (#[trigger] sol[k]).0 == cards[c];
    }
    assert(forall|k: int| 0 <= k < rest.len() ==> #[trigger] rest[k] == sol[k + 1]);
    lemma_leads_costs(board, end.0, rest);
    if sol.len() == 1 {
        assert(rest =~= Seq::<(Card, Direction, i32)>::empty());
        assert(move_total(rest) == 0);
        assert(sim_outcome(board, pos, sol[0].0, sol[0].1) is Some);
        assert(solution_leads_to_hole(board, end.0, rest));
        assert(solution_leads_to_hole(board, end.0, Seq::<(Card, Direction, i32)>::empty()));
        assert(board.contains_key(end.0) && board[end.0].terrain is Hole);
        lemma_uses_nonneg(rest, cards[i]);
        assert(uses_of_card(sol, cards[i]) == 1 + uses_of_card(rest, cards[i]));
    } else {
        lemma_candidate_tail(board, stack, pos, cards, counts, sol, i);
    }
}

/// Searches for the cheapest ordering of the available cards that walks
/// the ball from `position` into the hole. `cards` lists the distinct card
/// values and `card_counts` their per-value quotas; `previous_positions`
/// holds the path explored so far (a position is never revisited within
/// one candidate sequence); `known_moves` memoizes simulator verdicts;
/// `step_count_to_beat` prunes any candidate not strictly cheaper.
///
/// The contract pins the search down in both directions. A returned
/// solution is sound: a real simulated walk into the hole that keeps to
/// fresh ground, uses no card value beyond its quota (see
/// [`good_solution`] and [`path_clear`]), and beats the supplied bound.
/// The search is also complete and cost-minimal over its space: whenever
/// any [`candidate_solution`] beats the bound, a solution comes back, and
/// a returned solution costs no more than any candidate at all.
#[verifier::loop_isolation(false)]
#[verifier::rlimit(100)]
#[verifier::spinoff_prover]
pub fn try_moves_to_reach_hole(
    map: &Board,
    position: Location,
    cards: &Vec<Card>,
    card_counts: &mut Vec<i32>,
    previous_positions: &mut Vec<Location>,
    known_moves: &mut MemoTable,
    step_count_to_beat: Option<i32>,
) -> (r: Option<Vec<(Card, Direction, i32)>>)
    requires
        map.wf(),
        portals_closed(map@),
        map@.dom().len() <= MAX_BOARD_TILES as nat,
        map@.contains_key(position),
        cards@.len() == old(card_counts)@.len(),
        forall|a: int, b: int| 0 <= a < b < cards@.len() ==> cards@[a] != cards@[b],
        forall|k: int|
            0 <= k < cards@.len() ==> 0 <= (#[trigger] cards@[k]).rolling <= MAX_CARD_DISTANCE && 0
                <= cards@[k].airborne <= MAX_CARD_DISTANCE,
        forall|k: int| 0 <= k < old(card_counts)@.len() ==> #[trigger] old(card_counts)@[k] >= 0,
        counts_sum(old(card_counts)@) <= MAX_TOTAL_CARD_COUNT,
        old(known_moves).wf(map@),
        step_count_to_beat matches Some(m) ==> -SOLVER_BOUND_LIMIT <= m <= SOLVER_BOUND_LIMIT,
    ensures
        final(card_counts)@ == old(card_counts)@,
        final(previous_positions)@ == old(previous_positions)@,
        final(known_moves).wf(map@),
        forall|p: Location, c: Card, d: Direction, v: Option<(Location, i32)>|
            old(known_moves).remembers(p, c, d, v) ==> final(known_moves).remembers(p, c, d, v),
        r matches Some(sol) ==> good_solution(map@, position, cards@, old(card_counts)@, sol@),
        r matches Some(sol) ==> path_clear(map@, old(previous_positions)@, position, sol@),
        r matches Some(sol) ==> (step_count_to_beat matches Some(m) ==> move_total(sol@) < m),
        (exists|sol: Seq<(Card, Direction, i32)>|
            #[trigger] candidate_solution(
                map@,
                old(previous_positions)@,
                position,
                cards@,
                old(card_counts)@,
                sol,
            ) && beats(sol, step_count_to_beat)) ==> r is Some,
        r matches Some(best) ==> forall|sol: Seq<(Card, Direction, i32)>|
            #[trigger] candidate_solution(
                map@,
                old(previous_positions)@,
                position,
                cards@,
                old(card_counts)@,
                sol,
            ) ==> move_total(best@) <= move_total(sol),
    decreases counts_sum(old(card_counts)@),
{
    let ghost board0 = map@;
    let ghost stack0 = old(previous_positions)@;
    let ghost counts0 = old(card_counts)@;
    let ghost b0 = step_count_to_beat;
    proof {
        lemma_counts_sum_nonneg(counts0);
        map.lemma_finite();
    }
    previous_positions.push(position);
    let mut solution: Option<Vec<(Card, Direction, i32)>> = None;
    let mut bound: Option<i32> = step_count_to_beat;
    let mut i: usize = 0;
    while i < cards.len()
        invariant
            0 <= i <= cards@.len(),
            card_counts@ == counts0,
            previous_positions@ == stack0.push(position),
            known_moves.wf(board0),
            forall|p: Location, c: Card, d: Direction, v: Option<(Location, i32)>|
                old(known_moves).remembers(p, c, d, v) ==> known_moves.remembers(p, c, d, v),
            match bound {
                Some(b) => -SOLVER_BOUND_LIMIT <= b <= SOLVER_BOUND_LIMIT,
                None => true,
            },
            match solution {
                None => bound == b0,
                Some(sol) => {
                    &&& good_solution(board0, position, cards@, counts0, sol@)
                    &&& path_clear(board0, stack0, position, sol@)
                    &&& bound matches Some(b) && b as int == move_total(sol@)
                    &&& (b0 matches Some(m0) ==> move_total(sol@) < m0)
                },
            },
            forall|sol: Seq<(Card, Direction, i32)>|
                #[trigger] candidate_solution(board0, stack0, position, cards@, counts0, sol)
                    && beats(sol, b0) && starts_before(sol, cards@, i as int, 0) ==> (
                solution matches Some(b) && move_total(b@) <= move_total(sol)),
        decreases cards@.len() - i,
    {
        let cnt = card_counts[i];
        if cnt > 0 {
            card_counts[i] = cnt - 1;
            proof {
                lemma_counts_sum_update(counts0, i as int, (cnt - 1) as i32);
            }
            let current_card = cards[i];
            let mut j: usize = 0;
            while j < 4
                invariant
                    0 <= j <= 4,
                    0 <= i < cards@.len(),
                    cnt == counts0[i as int],
                    cnt > 0,
                    card_counts@ == counts0.update(i as int, (cnt - 1) as i32),
                    previous_positions@ == stack0.push(position),
                    known_moves.wf(board0),
                    forall|p: Location, c: Card, d: Direction, v: Option<(Location, i32)>|
                        old(known_moves).remembers(p, c, d, v) ==> known_moves.remembers(
                            p,
                            c,
                            d,
                            v,
                        ),
                    current_card == cards@[i as int],
                    match bound {
                        Some(b) => -SOLVER_BOUND_LIMIT <= b <= SOLVER_BOUND_LIMIT,
                        None => true,
                    },
                    match solution {
                        None => bound == b0,
                        Some(sol) => {
                            &&& good_solution(board0, position, cards@, counts0, sol@)
                            &&& path_clear(board0, stack0, position, sol@)
                            &&& bound matches Some(b) && b as int == move_total(sol@)
                            &&& (b0 matches Some(m0) ==> move_total(sol@) < m0)
                        },
                    },
                    forall|sol: Seq<(Card, Direction, i32)>|
                        #[trigger] candidate_solution(board0, stack0, position, cards@, counts0, sol)
                            && beats(sol, b0) && starts_before(sol, cards@, i as int, j as int)
                            ==> (solution matches Some(b) && move_total(b@) <= move_total(sol)),
                decreases 4 - j,
            {
                let ghost prev_best: Option<Seq<(Card, Direction, i32)>> = match &solution {
                    Some(v) => Some(v@),
                    None => None,
                };
                proof {
                    assert(forall|sol: Seq<(Card, Direction, i32)>|
                        #[trigger] candidate_solution(board0, stack0, position, cards@, counts0, sol)
                            && beats(sol, b0) && starts_before(sol, cards@, i as int, j as int)
                            ==> (prev_best matches Some(pb) && move_total(pb) <= move_total(sol)));
                }
                let direction = if j == 0 {
                    Direction::North
                } else if j == 1 {
                    Direction::South
                } else if j == 2 {
                    Direction::West
                } else {
                    Direction::East
                };
                proof {
                    assert(dir_order(direction) == j as int);
                }
                let move_result = match known_moves.lookup(
                    position,
                    current_card,
                    direction,
                    Ghost(map@),
                ) {
                    Some(known) => known,
                    None => {
                        let res = try_move(map, position, current_card, direction);
                        known_moves.record(position, current_card, direction, res, Ghost(map@));
                        res
                    },
                };
                proof {
                    assert(match move_result {
                        Some(res) => sim_outcome(board0, position, current_card, direction)
                            == Some((res.0, res.1 as int)) && board0.contains_key(res.0) && 3
                            <= res.1 <= MOVE_COST_LIMIT,
                        None => sim_outcome(board0, position, current_card, direction) is None,
                    });
                }
                if let Some((end_position, steps)) = move_result {
                    let remaining_steps: Option<i32> = match bound {
                        Some(max_steps) => Some(max_steps - steps),
                        None => None,
                    };
                    let within_bound = match remaining_steps {
                        None => true,
                        Some(rem) => rem > 0,
                    };
                    // Only evaluate moves that beat the running bound.
                    if within_bound {
                        let end_tile = map.tile_at(&end_position);
                        if matches!(end_tile.terrain, Terrain::Hole) {
                            // Ending on the hole makes a one-move candidate.
                            let mut sol_vec: Vec<(Card, Direction, i32)> = Vec::new();
                            sol_vec.push((current_card, direction, steps));
                            proof {
                                assert(sol_vec@ =~= seq![(current_card, direction, steps)]);
                                lemma_singleton_solution(
                                    board0,
                                    position,
                                    cards@,
                                    counts0,
                                    (current_card, direction, steps),
                                    i as int,
                                );
                                assert(path_clear(board0, stack0, position, sol_vec@));
                            }
                            solution = Some(sol_vec);
                            bound = Some(steps);
                            proof {
                                assert forall|sol: Seq<(Card, Direction, i32)>|
                                    #[trigger] candidate_solution(
                                        board0,
                                        stack0,
                                        position,
                                        cards@,
                                        counts0,
                                        sol,
                                    ) && sol[0].0 == current_card && dir_order(sol[0].1)
                                        == j as int implies (solution matches Some(b)
                                    && move_total(b@) <= move_total(sol)) by {
                                    assert(sol[0].1 == direction);
                                    lemma_candidate_first_move(
                                        board0,
                                        stack0,
                                        position,
                                        cards@,
                                        counts0,
                                        i as int,
                                        sol,
                                    );
                                    assert(sol[0].2 == steps);
                                    assert(sol.len() == 1);
                                }
                            }
                        } else if !path_holds(previous_positions, &end_position) {
                            proof {
                                lemma_counts_sum_update(counts0, i as int, (cnt - 1) as i32);
                                lemma_counts_sum_nonneg(card_counts@);
                            }
                            // Otherwise keep building a path toward the hole.
                            match try_moves_to_reach_hole(
                                map,
                                end_position,
                                cards,
                                card_counts,
                                previous_positions,
                                known_moves,
                                remaining_steps,
                            ) {
                                Some(mut moves_to_solve) => {
                                    let ghost rec_sol = moves_to_solve@;
                                    moves_to_solve.insert(0, (current_card, direction, steps));
                                    proof {
                                        lemma_prepend_solution(
                                            board0,
                                            stack0,
                                            position,
                                            end_position,
                                            cards@,
                                            counts0,
                                            i as int,
                                            (current_card, direction, steps),
                                            rec_sol,
                                        );
                                        assert(moves_to_solve@ == rec_sol.insert(
                                            0,
                                            (current_card, direction, steps),
                                        ));
                                    }
                                    let total = solution_total(&moves_to_solve);
                                    solution = Some(moves_to_solve);
                                    bound = Some(total);
                                    proof {
                                        assert forall|sol: Seq<(Card, Direction, i32)>|
                                            #[trigger] candidate_solution(
                                                board0,
                                                stack0,
                                                position,
                                                cards@,
                                                counts0,
                                                sol,
                                            ) && sol[0].0 == current_card && dir_order(sol[0].1)
                                                == j as int implies (solution matches Some(b)
                                            && move_total(b@) <= move_total(sol)) by {
                                            assert(sol[0].1 == direction);
                                            lemma_candidate_first_move(
                                                board0,
                                                stack0,
                                                position,
                                                cards@,
                                                counts0,
                                                i as int,
                                                sol,
                                            );
                                            assert(sol[0].2 == steps);
                                            assert(sol.len() >= 2);
                                            assert(move_total(rec_sol) <= move_total(
                                                sol.drop_first(),
                                            ));
                                        }
                                    }
                                },
                                None => {
                                    proof {
                                        assert forall|sol: Seq<(Card, Direction, i32)>|
                                            #[trigger] candidate_solution(
                                                board0,
                                                stack0,
                                                position,
                                                cards@,
                                                counts0,
                                                sol,
                                            ) && beats(sol, b0) && sol[0].0 == current_card
                                                && dir_order(sol[0].1) == j as int implies (
                                        solution matches Some(b) && move_total(b@) <= move_total(
                                            sol,
                                        )) by {
                                            assert(sol[0].1 == direction);
                                            lemma_candidate_first_move(
                                                board0,
                                                stack0,
                                                position,
                                                cards@,
                                                counts0,
                                                i as int,
                                                sol,
                                            );
                                            assert(sol[0].2 == steps);
                                            assert(sol.len() >= 2);
                                            let rest = sol.drop_first();
                                            if beats(rest, remaining_steps) {
                                                assert(candidate_solution(
                                                    board0,
                                                    stack0.push(position),
                                                    end_position,
                                                    cards@,
                                                    counts0.update(i as int, (cnt - 1) as i32),
                                                    rest,
                                                ) && beats(rest, remaining_steps));
                                                assert(false);
                                            }
                                            assert(remaining_steps matches Some(rm)
                                                && move_total(rest) >= rm as int);
                                        }
                                    }
                                },
                            }
                        } else {
                            proof {
                                assert forall|sol: Seq<(Card, Direction, i32)>|
                                    #[trigger] candidate_solution(
                                        board0,
                                        stack0,
                                        position,
                                        cards@,
                                        counts0,
                                        sol,
                                    ) && sol[0].0 == current_card && dir_order(sol[0].1)
                                        == j as int implies false by {
                                    assert(sol[0].1 == direction);
                                    lemma_candidate_first_move(
                                        board0,
                                        stack0,
                                        position,
                                        cards@,
                                        counts0,
                                        i as int,
                                        sol,
                                    );
                                }
                            }
                        }
                    } else {
                        proof {
                            assert forall|sol: Seq<(Card, Direction, i32)>|
                                #[trigger] candidate_solution(
                                    board0,
                                    stack0,
                                    position,
                                    cards@,
                                    counts0,
                                    sol,
                                ) && beats(sol, b0) && sol[0].0 == current_card && dir_order(
                                sol[0].1,
                            ) == j as int implies (solution matches Some(b) && move_total(b@)
                                <= move_total(sol)) by {
                                assert(sol[0].1 == direction);
                                lemma_candidate_first_move(
                                    board0,
                                    stack0,
                                    position,
                                    cards@,
                                    counts0,
                                    i as int,
                                    sol,
                                );
                                assert(sol[0].2 == steps);
                                assert(move_total(sol) >= steps);
                            }
                        }
                    }
                }
                proof {
                    assert forall|sol: Seq<(Card, Direction, i32)>|
                        #[trigger] candidate_solution(board0, stack0, position, cards@, counts0, sol)
                            && beats(sol, b0) && starts_before(sol, cards@, i as int, j as int + 1)
                            implies (solution matches Some(b) && move_total(b@) <= move_total(
                        sol,
                    )) by {
                        if starts_before(sol, cards@, i as int, j as int) {
                            assert(prev_best matches Some(pb) && move_total(pb) <= move_total(sol));
                        } else {
                            let idx = choose|idx: int|
                                0 <= idx < cards@.len() && sol[0].0 == cards@[idx] && (idx
                                    < i as int || (idx == i as int && dir_order(sol[0].1)
                                    < j as int + 1));
                            assert(idx == i as int && dir_order(sol[0].1) == j as int);
                            assert(sol[0].0 == current_card);
                        }
                    }
                }
                j += 1;
            }
            let cnt2 = card_counts[i];
            card_counts[i] = cnt2 + 1;
            proof {
                assert(card_counts@ =~= counts0);
                assert forall|sol: Seq<(Card, Direction, i32)>|
                    #[trigger] candidate_solution(board0, stack0, position, cards@, counts0, sol)
                        && beats(sol, b0) && starts_before(sol, cards@, i as int + 1, 0) implies (
                solution matches Some(b) && move_total(b@) <= move_total(sol)) by {
                    if !starts_before(sol, cards@, i as int, 4) {
                        let idx = choose|idx: int|
                            0 <= idx < cards@.len() && sol[0].0 == cards@[idx] && (idx < i as int
                                + 1 || (idx == i as int + 1 && dir_order(sol[0].1) < 0));
                        assert(0 <= dir_order(sol[0].1) < 4);
                        assert(starts_before(sol, cards@, i as int, 4));
                    }
                }
            }
        } else {
            proof {
                assert forall|sol: Seq<(Card, Direction, i32)>|
                    #[trigger] candidate_solution(board0, stack0, position, cards@, counts0, sol)
                        && beats(sol, b0) && starts_before(sol, cards@, i as int + 1, 0) implies (
                solution matches Some(b) && move_total(b@) <= move_total(sol)) by {
                    if !starts_before(sol, cards@, i as int, 0) {
                        let idx = choose|idx: int|
                            0 <= idx < cards@.len() && sol[0].0 == cards@[idx] && (idx < i as int
                                + 1 || (idx == i as int + 1 && dir_order(sol[0].1) < 0));
                        assert(0 <= dir_order(sol[0].1) < 4);
                        assert(idx == i as int);
                        lemma_uses_nonneg(sol.drop_first(), cards@[idx]);
                        assert(uses_of_card(sol, cards@[idx]) == 1 + uses_of_card(
                            sol.drop_first(),
                            cards@[idx],
                        ));
                        assert(uses_of_card(sol, cards@[idx]) <= counts0[idx]);
                        assert(false);
                    }
                }
            }
        }
        i += 1;
    }
    previous_positions.pop();
    proof {
        assert(stack0.push(position).drop_last() =~= stack0);
        if solution is None {
            assert forall|sol: Seq<(Card, Direction, i32)>|
                #[trigger] candidate_solution(board0, stack0, position, cards@, counts0, sol)
                    && beats(sol, b0) implies false by {
                let c = choose|c: int| 0 <= c < cards@.len() && (#[trigger] sol[0]).0 == cards@[c];
                assert(starts_before(sol, cards@, cards@.len() as int, 0));
            }
        } else {
            assert forall|sol: Seq<(Card, Direction, i32)>|
                #[trigger] candidate_solution(board0, stack0, position, cards@, counts0, sol)
                    implies (solution matches Some(b) && move_total(b@) <= move_total(sol)) by {
                let c = choose|c: int| 0 <= c < cards@.len() && (#[trigger] sol[0]).0 == cards@[c];
                assert(starts_before(sol, cards@, cards@.len() as int, 0));
                if !beats(sol, b0) {
                    assert(b0 matches Some(m0) && move_total(sol) >= m0);
                }
            }
        }
    }
    solution
}

} // verus!
