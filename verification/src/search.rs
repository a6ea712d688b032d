//! The search engine: depth-first backtracking over board states with an
//! explicit stack and a set of the states already expanded.

use crate::board::{
    free_on, lemma_frontier, lemma_place, lemma_same_cells, lemma_with_cell, neighbors,
    next_open, placements, spec_neighbors, State, EMPTY_SENTINEL,
};
use crate::filtering::{lemma_filter_ascending, lemma_filter_take_step};
use crate::order::{
    lemma_below_asymmetric, lemma_below_excludes_extends, lemma_below_extended,
    lemma_extends_complete,
};
use crate::piece::PieceList;
use crate::rules::{legal, lemma_legal_prefix, spec_legal};
use std::collections::HashSet;
use vstd::prelude::*;

verus! {

/// A solution: a well-formed, complete and legal board.
pub open spec fn is_solution(t: State, pieces: PieceList) -> bool {
    t.wf() && t.complete() && spec_legal(t, pieces)
}

/// The solution that the search meets first: every other solution is
/// below it.
pub open spec fn is_first_solution(s: State, pieces: PieceList) -> bool {
    &&& is_solution(s, pieces)
    &&& forall|t: State| #[trigger] is_solution(t, pieces) ==> t == s || t.below(s)
}

/// What a search for `pieces` has to return: the first solution, or
/// `None` if there is no solution at all.
pub open spec fn is_search_result(pieces: PieceList, result: Option<State>) -> bool {
    match result {
        Some(state) => is_first_solution(state, pieces),
        None => forall|t: State| !is_solution(t, pieces),
    }
}

/// A puzzle has one search result only: whoever searches it again gets
/// the same solution, or again none.
pub proof fn lemma_search_result_unique(pieces: PieceList, a: Option<State>, b: Option<State>)
    requires
        is_search_result(pieces, a),
        is_search_result(pieces, b),
    ensures
        a == b,
{
    if a is Some && b is Some {
        let s = a->0;
        let t = b->0;
        assert(is_solution(s, pieces) && is_solution(t, pieces));
        if s != t {
            lemma_below_asymmetric(s, t);
        }
    } else if a is Some {
        assert(is_solution(a->0, pieces));
    } else if b is Some {
        assert(is_solution(b->0, pieces));
    }
}

/// The test that keeps the boards which are legal for `pieces`.
pub open spec fn legal_on(pieces: PieceList) -> spec_fn(State) -> bool {
    |n: State| spec_legal(n, pieces)
}

/// The rank of what a board holds in cell `f`.
pub open spec fn rank_at(f: int) -> spec_fn(State) -> int {
    |n: State| n.cell_rank(f)
}

/// The states that the search puts on its stack when it expands `s`: the
/// legal successors of `s`, in ascending order.
pub open spec fn successors(s: State, pieces: PieceList) -> Seq<State> {
    spec_neighbors(s).filter(legal_on(pieces))
}

proof fn lemma_placements_ascend(s: State)
    requires
        !s.complete(),
    ensures
        forall|i: int, j: int|
            0 <= i < j < 36 ==> rank_at(s.frontier())(placements(s)[i]) < rank_at(s.frontier())(
                placements(s)[j],
            ),
{
    lemma_frontier(s);
    let f = s.frontier();
    assert forall|k: int| 0 <= k < 36 implies rank_at(f)(#[trigger] placements(s)[k]) == k by {
        lemma_with_cell(s, f, (k / 4) as u8, (k % 4) as u8);
    }
}

/// What the search puts on its stack when it expands a well-formed state:
/// well-formed legal states one cell longer, in ascending order, among
/// them a state under every solution that extends the expanded state.
pub proof fn lemma_successors(s: State, pieces: PieceList)
    requires
        s.wf(),
        !s.complete(),
    ensures
        successors(s, pieces).len() <= 36,
        forall|j: int|
            0 <= j < successors(s, pieces).len() ==> {
                let n = #[trigger] successors(s, pieces)[j];
                &&& n.wf()
                &&& n.frontier() == s.frontier() + 1
                &&& n.extends(s)
                &&& spec_legal(n, pieces)
            },
        forall|i: int, j: int|
            0 <= i < j < successors(s, pieces).len() ==> successors(s, pieces)[i].cell_rank(
                s.frontier(),
            ) < successors(s, pieces)[j].cell_rank(s.frontier()),
        forall|t: State|
            is_solution(t, pieces) && #[trigger] t.extends(s) ==> exists|j: int|
                0 <= j < successors(s, pieces).len() && t.extends(
                    #[trigger] successors(s, pieces)[j],
                ),
{
    lemma_frontier(s);
    let f = s.frontier();
    let all = placements(s);
    let free = all.filter(free_on(s));
    let kept = free.filter(legal_on(pieces));
    assert(free == spec_neighbors(s));
    assert(kept == successors(s, pieces));
    lemma_placements_ascend(s);
    lemma_filter_ascending(all, free_on(s), rank_at(f));
    lemma_filter_ascending(free, legal_on(pieces), rank_at(f));
    assert forall|j: int| 0 <= j < kept.len() implies {
        let n = #[trigger] kept[j];
        &&& n.wf()
        &&& n.frontier() == f + 1
        &&& n.extends(s)
        &&& spec_legal(n, pieces)
    } by {
        let n = kept[j];
        assert(free.contains(n));
        let i = choose|i: int| 0 <= i < free.len() && free[i] == n;
        assert(free_on(s)(free[i]));
        assert(all.contains(free[i]));
        let k = choose|k: int| 0 <= k < all.len() && all[k] == n;
        lemma_with_cell(s, f, (k / 4) as u8, (k % 4) as u8);
        lemma_place(s, (k / 4) as u8, (k % 4) as u8);
        assert(legal_on(pieces)(kept[j]));
    }
    assert forall|i: int, j: int| 0 <= i < j < kept.len() implies kept[i].cell_rank(f)
        < kept[j].cell_rank(f) by {
        assert(rank_at(f)(kept[i]) < rank_at(f)(kept[j]));
    }
    assert forall|t: State| is_solution(t, pieces) && #[trigger] t.extends(s) implies exists|
        j: int,
    |
        0 <= j < kept.len() && t.extends(#[trigger] kept[j]) by {
        lemma_frontier(t);
        let p = t.placement[f];
        let o = t.orientation[f];
        let k = p as int * 4 + o as int;
        let n = all[k];
        assert(n == s.place(p, o));
        if s.uses(p) {
            let c = choose|c: int| 0 <= c < 9 && s.placement[c] == p;
            assert(c < f);
            assert(t.placement[c] == t.placement[f]);
        }
        lemma_with_cell(s, f, p, o);
        lemma_place(s, p, o);
        assert(free_on(s)(all[k]));
        assert(free.contains(all[k]));
        let i = choose|i: int| 0 <= i < free.len() && free[i] == n;
        assert(t.extends(n));
        lemma_legal_prefix(t, n, pieces);
        assert(legal_on(pieces)(free[i]));
        assert(kept.contains(free[i]));
        let j = choose|j: int| 0 <= j < kept.len() && kept[j] == n;
        assert(t.extends(kept[j]));
    }
}


/// An upper bound on the number of states in the search tree below and
/// including a state with frontier `depth`.
pub open spec fn weight(depth: int) -> nat
    decreases 9 - depth,
{
    if depth >= 9 {
        1
    } else {
        1 + 36 * weight(depth + 1)
    }
}

/// An upper bound on the number of expansions that a stack still asks for.
pub open spec fn budget_of(stack: Seq<State>) -> nat
    decreases stack.len(),
{
    if stack.len() == 0 {
        0
    } else {
        budget_of(stack.drop_last()) + weight(stack.last().frontier())
    }
}

proof fn lemma_budget_concat(a: Seq<State>, b: Seq<State>)
    ensures
        budget_of(a + b) == budget_of(a) + budget_of(b),
    decreases b.len(),
{
    if b.len() == 0 {
        assert(a + b =~= a);
    } else {
        assert((a + b).drop_last() =~= a + b.drop_last());
        lemma_budget_concat(a, b.drop_last());
    }
}

proof fn lemma_budget_level(level: Seq<State>, depth: int)
    requires
        forall|i: int| 0 <= i < level.len() ==> (#[trigger] level[i]).frontier() == depth,
    ensures
        budget_of(level) == level.len() * weight(depth),
    decreases level.len(),
{
    if level.len() > 0 {
        lemma_budget_level(level.drop_last(), depth);
        let n = level.len() as int;
        let w = weight(depth) as int;
        assert((n - 1) * w + w == n * w) by (nonlinear_arith);
    }
}

/// Every state on the stack is well-formed and legal.
pub open spec fn pending_sound(pieces: PieceList, stack: Seq<State>) -> bool {
    forall|i: int| 0 <= i < stack.len() ==> (#[trigger] stack[i]).wf() && spec_legal(stack[i], pieces)
}

/// The stack is in ascending order: what lies nearer to its top is met
/// first.
pub open spec fn pending_ordered(stack: Seq<State>) -> bool {
    forall|i: int, j: int|
        0 <= i < j < stack.len() ==> (#[trigger] stack[i]).below(#[trigger] stack[j])
}

/// Every solution extends a state on the stack: none has been passed.
pub open spec fn pending_covers(pieces: PieceList, stack: Seq<State>) -> bool {
    forall|t: State| #[trigger]
        is_solution(t, pieces) ==> exists|i: int|
            0 <= i < stack.len() && t.extends(#[trigger] stack[i])
}

/// Every state expanded so far lies behind the stack: each state on the
/// stack either has grown out of it or is below it.
pub open spec fn seen_behind(stack: Seq<State>, seen: Set<State>) -> bool {
    forall|v: State, i: int|
        #![trigger seen.contains(v), stack[i]]
        seen.contains(v) && 0 <= i < stack.len() ==> stack[i].strictly_extends(v)
            || stack[i].below(v)
}

/// What holds between two steps of the search.
pub open spec fn search_inv(pieces: PieceList, stack: Seq<State>, seen: Set<State>) -> bool {
    &&& pending_sound(pieces, stack)
    &&& pending_ordered(stack)
    &&& pending_covers(pieces, stack)
    &&& seen_behind(stack, seen)
}

proof fn lemma_inv_start(pieces: PieceList, root: State)
    requires
        root.wf(),
        root.frontier() == 0,
    ensures
        search_inv(pieces, seq![root], Set::empty()),
{
    let stack = seq![root];
    assert forall|t: State| #[trigger] is_solution(t, pieces) implies exists|i: int|
        0 <= i < stack.len() && t.extends(#[trigger] stack[i]) by {
        lemma_frontier(t);
        assert(t.extends(stack[0]));
    }
}

proof fn lemma_inv_exhausted(pieces: PieceList, seen: Set<State>)
    requires
        search_inv(pieces, Seq::empty(), seen),
    ensures
        forall|t: State| !is_solution(t, pieces),
{
}

proof fn lemma_inv_found(pieces: PieceList, stack: Seq<State>, seen: Set<State>)
    requires
        search_inv(pieces, stack, seen),
        stack.len() > 0,
        stack.last().complete(),
    ensures
        is_first_solution(stack.last(), pieces),
{
    let top = stack.last();
    assert(stack[stack.len() - 1].wf());
    assert forall|t: State| #[trigger] is_solution(t, pieces) implies t == top || t.below(top) by {
        let i = choose|i: int| 0 <= i < stack.len() && t.extends(#[trigger] stack[i]);
        if i == stack.len() - 1 {
            lemma_extends_complete(t, top);
        } else {
            assert(stack[i].below(stack[stack.len() - 1]));
            lemma_below_extended(stack[i], top, t, top);
        }
    }
}

proof fn lemma_inv_expanded(pieces: PieceList, stack: Seq<State>, seen: Set<State>)
    requires
        search_inv(pieces, stack, seen),
        stack.len() > 0,
        !stack.last().complete(),
    ensures
        search_inv(
            pieces,
            stack.drop_last() + successors(stack.last(), pieces),
            seen.insert(stack.last()),
        ),
        budget_of(stack.drop_last() + successors(stack.last(), pieces)) < budget_of(stack),
{
    let top = stack.last();
    let base = stack.drop_last();
    let grown = successors(top, pieces);
    let next = base + grown;
    let f = top.frontier();
    assert(stack[stack.len() - 1].wf());
    lemma_frontier(top);
    lemma_successors(top, pieces);
    assert forall|i: int| 0 <= i < next.len() implies (#[trigger] next[i]).wf() && spec_legal(
        next[i],
        pieces,
    ) && (i < base.len() ==> next[i] == stack[i]) && (i >= base.len() ==> next[i] == grown[i
        - base.len()] && next[i].extends(top) && next[i].frontier() == f + 1) by {
        if i < base.len() {
            assert(next[i] == stack[i]);
        } else {
            assert(next[i] == grown[i - base.len()]);
        }
    }
    assert forall|i: int, j: int| 0 <= i < j < next.len() implies (#[trigger] next[i]).below(
        #[trigger] next[j],
    ) by {
        if j < base.len() {
            assert(stack[i].below(stack[j]));
        } else if i < base.len() {
            assert(stack[i].below(stack[stack.len() - 1]));
            lemma_below_extended(stack[i], top, next[i], next[j]);
        } else {
            assert(grown[i - base.len()].cell_rank(f) < grown[j - base.len()].cell_rank(f));
            assert(next[i].parts_below_at(next[j], f));
        }
    }
    assert forall|t: State| #[trigger] is_solution(t, pieces) implies exists|i: int|
        0 <= i < next.len() && t.extends(#[trigger] next[i]) by {
        let i = choose|i: int| 0 <= i < stack.len() && t.extends(#[trigger] stack[i]);
        if i < base.len() {
            assert(t.extends(next[i]));
        } else {
            assert(t.extends(top));
            let j = choose|j: int| 0 <= j < grown.len() && t.extends(#[trigger] grown[j]);
            assert(t.extends(next[base.len() + j]));
        }
    }
    let seen2 = seen.insert(top);
    assert forall|v: State, i: int|
        #![trigger seen2.contains(v), next[i]]
        seen2.contains(v) && 0 <= i < next.len() implies next[i].strictly_extends(v)
        || next[i].below(v) by {
        if v == top {
            if i < base.len() {
                assert(stack[i].below(stack[stack.len() - 1]));
            }
        } else {
            assert(seen.contains(v));
            if i < base.len() {
                assert(stack[i].strictly_extends(v) || stack[i].below(v));
            } else {
                assert(stack[stack.len() - 1].strictly_extends(v) || stack[stack.len() - 1].below(
                    v,
                ));
                if top.below(v) {
                    lemma_below_extended(top, v, next[i], v);
                }
            }
        }
    }
    lemma_budget_concat(base, grown);
    lemma_budget_level(grown, f + 1);
    let w = weight(f + 1) as int;
    let n = grown.len() as int;
    assert(n * w <= 36 * w) by (nonlinear_arith)
        requires
            0 <= n <= 36,
            0 <= w,
    ;
}


/// The digit that stands for cell `c` in the key of a state: the rank of
/// its content, or 36 for an empty cell.
spec fn key_digit(s: State, c: int) -> int {
    if s.placement[c] == EMPTY_SENTINEL {
        36
    } else {
        s.cell_rank(c)
    }
}

/// The digits of the cells from `c` on, read as a number in base 64 with
/// cell `c` as its lowest digit.
spec fn key_from(s: State, c: int) -> int
    decreases 9 - c,
{
    if c >= 9 {
        0
    } else {
        key_digit(s, c) + 64 * key_from(s, c + 1)
    }
}

spec fn key_limit(c: int) -> int
    decreases 9 - c,
{
    if c >= 9 {
        1
    } else {
        64 * key_limit(c + 1)
    }
}

/// The key under which the visited-set holds a state.
spec fn spec_key(s: State) -> int {
    key_from(s, 0)
}

proof fn lemma_key_digit(s: State, c: int)
    requires
        s.wf(),
        0 <= c < 9,
    ensures
        0 <= key_digit(s, c) <= 36,
        key_digit(s, c) == 36 ==> s.placement[c] == EMPTY_SENTINEL && s.orientation[c] == 0,
        key_digit(s, c) < 36 ==> s.placement[c] == key_digit(s, c) / 4 && s.orientation[c]
            == key_digit(s, c) % 4,
{
    lemma_frontier(s);
}

proof fn lemma_key_range(s: State, c: int)
    requires
        s.wf(),
        0 <= c <= 9,
    ensures
        0 <= key_from(s, c) < key_limit(c),
        key_limit(c) <= key_limit(0),
        key_limit(0) == 0x40_0000_0000_0000,
    decreases 9 - c,
{
    reveal_with_fuel(key_limit, 10);
    if c < 9 {
        lemma_key_digit(s, c);
        lemma_key_range(s, c + 1);
    }
}

proof fn lemma_key_cells(a: State, b: State, c: int)
    requires
        a.wf(),
        b.wf(),
        0 <= c <= 9,
        key_from(a, c) == key_from(b, c),
    ensures
        forall|d: int|
            c <= d < 9 ==> a.placement[d] == b.placement[d] && a.orientation[d] == b.orientation[d],
    decreases 9 - c,
{
    if c < 9 {
        lemma_key_digit(a, c);
        lemma_key_digit(b, c);
        assert(key_digit(a, c) == key_digit(b, c) && key_from(a, c + 1) == key_from(b, c + 1));
        lemma_key_cells(a, b, c + 1);
    }
}

/// Well-formed states with the same key are the same state.
proof fn lemma_key_injective(a: State, b: State)
    requires
        a.wf(),
        b.wf(),
        spec_key(a) == spec_key(b),
    ensures
        a == b,
{
    lemma_key_cells(a, b, 0);
    lemma_same_cells(a, b);
}

/// Packs a state into one integer, six bits for each cell.
fn key(state: State) -> (k: u64)
    requires
        state.wf(),
    ensures
        k == spec_key(state),
{
    let mut k: u64 = 0;
    let mut c: usize = 9;
    while c > 0
        invariant
            c <= 9,
            state.wf(),
            k == key_from(state, c as int),
        decreases c,
    {
        c -= 1;
        proof {
            lemma_key_digit(state, c as int);
            lemma_key_range(state, c as int + 1);
            lemma_key_range(state, c as int);
        }
        let digit: u64 = if state.placement[c] == EMPTY_SENTINEL {
            36
        } else {
            state.placement[c] as u64 * 4 + state.orientation[c] as u64
        };
        k = k * 64 + digit;
    }
    k
}

/// The well-formed states whose keys are in `keys`.
spec fn states_of(keys: Set<u64>) -> Set<State> {
    Set::new(|v: State| v.wf() && keys.contains(spec_key(v) as u64))
}

proof fn lemma_states_of_insert(keys: Set<u64>, s: State)
    requires
        s.wf(),
    ensures
        states_of(keys.insert(spec_key(s) as u64)) == states_of(keys).insert(s),
{
    let left = states_of(keys.insert(spec_key(s) as u64));
    let right = states_of(keys).insert(s);
    assert forall|v: State| left.contains(v) <==> right.contains(v) by {
        if v.wf() {
            lemma_key_range(v, 0);
            lemma_key_range(s, 0);
            if spec_key(v) == spec_key(s) {
                lemma_key_injective(v, s);
            }
        }
    }
    assert(left =~= right);
}

/// The outcome of one step of the search.
#[derive(Clone, Copy, Debug, PartialEq, Eq)]
pub enum Step {
    /// The state on top of the stack is complete: it is the solution.
    Found(State),
    /// The stack is empty: the puzzle has no solution.
    Exhausted,
    /// The state on top of the stack was replaced by its legal successors.
    Expanded,
}

/// A depth-first search for a solution of one puzzle.
pub struct Search {
    pieces: PieceList,
    stack: Vec<State>,
    visited: HashSet<u64>,
}

impl Search {
    /// The pieces of the puzzle that is searched.
    pub closed spec fn pieces(&self) -> PieceList {
        self.pieces
    }

    /// The stack of states that wait for their expansion, its top last.
    pub closed spec fn pending(&self) -> Seq<State> {
        self.stack@
    }

    /// The visited-set: the states expanded so far.
    pub closed spec fn seen(&self) -> Set<State> {
        states_of(self.visited@)
    }

    /// The invariant of the search.
    pub open spec fn wf(&self) -> bool {
        search_inv(self.pieces(), self.pending(), self.seen())
    }

    /// An upper bound on the number of expansions still to come.
    pub closed spec fn budget(&self) -> nat {
        budget_of(self.stack@)
    }

    /// A search for `pieces` that is about to start: the empty board is
    /// the only state on its stack, and nothing has been expanded.
    pub fn new(pieces: PieceList) -> (search: Search)
        ensures
            search.wf(),
            search.pieces() == pieces,
            search.pending() == seq![State::spec_empty()],
            search.seen() == Set::<State>::empty(),
    {
        let root = State::empty();
        let mut stack: Vec<State> = Vec::new();
        stack.push(root);
        let visited: HashSet<u64> = HashSet::new();
        proof {
            lemma_inv_start(pieces, root);
            assert(stack@ =~= seq![root]);
            assert(states_of(visited@) =~= Set::<State>::empty());
        }
        Search { pieces, stack, visited }
    }

    /// One step of the search.  On an empty stack the search is
    /// exhausted.  A complete state on top of the stack is the solution,
    /// and stays where it is.  Any other state on top is taken off, marked
    /// as visited and replaced by its legal successors, the highest on
    /// top.
    pub fn step(&mut self) -> (outcome: Step)
        requires
            old(self).wf(),
        ensures
            final(self).wf(),
            final(self).pieces() == old(self).pieces(),
            match outcome {
                Step::Exhausted => {
                    &&& old(self).pending().len() == 0
                    &&& final(self).pending() == old(self).pending()
                    &&& final(self).seen() == old(self).seen()
                    &&& forall|t: State| !is_solution(t, old(self).pieces())
                },
                Step::Found(state) => {
                    &&& old(self).pending().len() > 0
                    &&& state == old(self).pending().last()
                    &&& state.complete()
                    &&& final(self).pending() == old(self).pending()
                    &&& final(self).seen() == old(self).seen()
                    &&& is_first_solution(state, old(self).pieces())
                },
                Step::Expanded => {
                    &&& old(self).pending().len() > 0
                    &&& !old(self).pending().last().complete()
                    &&& final(self).pending() == old(self).pending().drop_last() + successors(
                        old(self).pending().last(),
                        old(self).pieces(),
                    )
                    &&& final(self).seen() == old(self).seen().insert(old(self).pending().last())
                    &&& final(self).budget() < old(self).budget()
                },
            },
    {
        broadcast use vstd::std_specs::hash::group_hash_axioms;

        let n = self.stack.len();
        if n == 0 {
            proof {
                assert(self.stack@ =~= Seq::<State>::empty());
                lemma_inv_exhausted(self.pieces, self.seen());
            }
            return Step::Exhausted;
        }
        let state = self.stack[n - 1];
        let ghost before = self.stack@;
        let ghost keys = self.visited@;
        let ghost seen = self.seen();
        if next_open(state) == 9 {
            proof {
                lemma_inv_found(self.pieces, before, seen);
            }
            return Step::Found(state);
        }
        proof {
            assert(before[n - 1].wf());
            lemma_inv_expanded(self.pieces, before, seen);
            lemma_successors(state, self.pieces);
            lemma_states_of_insert(keys, state);
            lemma_key_range(state, 0);
        }
        self.stack.pop();
        self.visited.insert(key(state));
        let candidates = neighbors(state);
        let ghost base = before.drop_last();
        let mut i: usize = 0;
        proof {
            reveal(Seq::filter);
            assert(candidates@.take(0) =~= Seq::<State>::empty());
            assert(self.stack@ =~= base + candidates@.take(0).filter(legal_on(self.pieces)));
        }
        while i < candidates.len()
            invariant
                i <= candidates.len(),
                candidates@ == spec_neighbors(state),
                state.wf(),
                !state.complete(),
                state == before.last(),
                before.len() > 0,
                base == before.drop_last(),
                search_inv(self.pieces, before, seen),
                self.pieces == old(self).pieces,
                self.visited@ == keys.insert(spec_key(state) as u64),
                seen == states_of(keys),
                self.stack@ == base + candidates@.take(i as int).filter(legal_on(self.pieces)),
            decreases candidates.len() - i,
        {
            let neighbor = candidates[i];
            proof {
                lemma_candidate_fresh(self.pieces, before, keys, i as int);
                lemma_filter_take_step(candidates@, legal_on(self.pieces), i as int);
                lemma_key_range(neighbor, 0);
            }
            let neighbor_key = key(neighbor);
            if !self.visited.contains(&neighbor_key) && legal(neighbor, self.pieces) {
                self.stack.push(neighbor);
            }
            i += 1;
        }
        proof {
            assert(candidates@.take(candidates@.len() as int) =~= candidates@);
        }
        Step::Expanded
    }
}

/// No state that a search has put on its stack holds a piece twice, and
/// every such state is filled from cell 0 on without a gap.
pub proof fn lemma_pending_pieces_distinct(search: &Search, i: int)
    requires
        search.wf(),
        0 <= i < search.pending().len(),
    ensures
        search.pending()[i].no_piece_twice(),
        search.pending()[i].wf(),
{
}

/// A successor of the state on top of the stack is well-formed and has
/// not been expanded before, nor is it the state on top itself.
proof fn lemma_candidate_fresh(pieces: PieceList, stack: Seq<State>, keys: Set<u64>, k: int)
    requires
        search_inv(pieces, stack, states_of(keys)),
        stack.len() > 0,
        !stack.last().complete(),
        0 <= k < spec_neighbors(stack.last()).len(),
    ensures
        spec_neighbors(stack.last())[k].wf(),
        !keys.insert(spec_key(stack.last()) as u64).contains(
            spec_key(spec_neighbors(stack.last())[k]) as u64,
        ),
{
    let top = stack.last();
    let f = top.frontier();
    let all = placements(top);
    let free = spec_neighbors(top);
    let n = free[k];
    assert(stack[stack.len() - 1].wf());
    lemma_frontier(top);
    lemma_filter_ascending(all, free_on(top), rank_at(f));
    assert(free_on(top)(free[k]));
    assert(all.contains(free[k]));
    let j = choose|j: int| 0 <= j < all.len() && all[j] == n;
    lemma_with_cell(top, f, (j / 4) as u8, (j % 4) as u8);
    lemma_place(top, (j / 4) as u8, (j % 4) as u8);
    lemma_key_range(n, 0);
    lemma_key_range(top, 0);
    if spec_key(n) == spec_key(top) {
        lemma_key_injective(n, top);
    }
    if keys.contains(spec_key(n) as u64) {
        assert(states_of(keys).contains(n));
        assert(stack[stack.len() - 1].strictly_extends(n) || stack[stack.len() - 1].below(n));
        if top.below(n) {
            assert(n.extends(top));
            lemma_below_excludes_extends(top, n);
        }
    }
}

/// Searches for a placement of all nine pieces in which every pair of
/// touching edges fits.  Returns the solution that a depth-first search
/// meets first when it tries the pieces in descending order, and the
/// orientations of one piece in descending order; `None` if the puzzle
/// has no solution.
pub fn solve(pieces: PieceList) -> (result: Option<State>)
    ensures
        is_search_result(pieces, result),
{
    let mut search = Search::new(pieces);
    loop
        invariant
            search.wf(),
            search.pieces() == pieces,
        decreases search.budget(),
    {
        match search.step() {
            Step::Found(state) => {
                return Some(state);
            },
            Step::Exhausted => {
                return None;
            },
            Step::Expanded => {},
        }
    }
}

} // verus!
