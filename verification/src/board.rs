//! Board states: which piece lies in which cell, and how it is turned.
//!
//! The nine cells are numbered row by row:
//!
//! ```text
//! | 0 1 2 |
//! | 3 4 5 |
//! | 6 7 8 |
//! ```

use crate::filtering::lemma_filter_take_step;
use vstd::prelude::*;

verus! {

/// Marks a cell of `placement` that holds no piece.
pub const EMPTY_SENTINEL: u8 = 0xFF;

/// A partially or fully filled board.
#[derive(Clone, Copy, Debug, PartialEq, Eq, Hash)]
pub struct State {
    /// For each cell the index of the piece in it, or `EMPTY_SENTINEL`.
    pub placement: [u8; 9],
    /// For each cell the quarter turns applied to its piece.
    pub orientation: [u8; 9],
}

impl State {
    /// `f` is the first empty cell of the board, or 9 if there is none.
    pub open spec fn is_frontier(self, f: int) -> bool {
        &&& 0 <= f <= 9
        &&& forall|c: int| 0 <= c < f ==> self.placement[c] != EMPTY_SENTINEL
        &&& f < 9 ==> self.placement[f] == EMPTY_SENTINEL
    }

    /// The frontier: the first empty cell in row-major order, 9 on a
    /// board without empty cells.
    pub open spec fn frontier(self) -> int {
        choose|f: int| self.is_frontier(f)
    }

    /// The board has no empty cell.
    pub open spec fn complete(self) -> bool {
        self.frontier() == 9
    }

    /// Some cell holds the piece with index `piece`.
    pub open spec fn uses(self, piece: u8) -> bool {
        exists|c: int| 0 <= c < 9 && self.placement[c] == piece
    }

    /// Every cell before the frontier holds a piece index below 9 and an
    /// orientation below 4.
    pub open spec fn filled_cells_valid(self) -> bool {
        forall|c: int|
            0 <= c < self.frontier() ==> self.placement[c] < 9 && self.orientation[c] < 4
    }

    /// No piece index occurs in two cells.
    pub open spec fn no_piece_twice(self) -> bool {
        forall|c: int, d: int|
            0 <= c < d < 9 && self.placement[c] != EMPTY_SENTINEL ==> self.placement[c]
                != self.placement[d]
    }

    /// Every cell from the frontier on is empty and unturned.
    pub open spec fn rest_blank(self) -> bool {
        forall|c: int|
            self.frontier() <= c < 9 ==> self.placement[c] == EMPTY_SENTINEL
                && self.orientation[c] == 0
    }

    /// The shape of every state that the search builds: cells are filled
    /// from cell 0 on without gaps, with valid and distinct pieces, and
    /// nothing is written behind the frontier.
    pub open spec fn wf(self) -> bool {
        &&& self.filled_cells_valid()
        &&& self.no_piece_twice()
        &&& self.rest_blank()
    }

    /// The rank of the content of cell `c`: pieces in ascending order, the
    /// four orientations of one piece in ascending order.
    pub open spec fn cell_rank(self, c: int) -> int {
        self.placement[c] as int * 4 + self.orientation[c] as int
    }

    /// The two boards hold the same piece in the same orientation in
    /// every cell before cell `k`.
    pub open spec fn agrees_below(self, other: State, k: int) -> bool {
        forall|c: int|
            0 <= c < k ==> self.placement[c] == other.placement[c] && self.orientation[c]
                == other.orientation[c]
    }

    /// The board with `piece`, turned by `turns`, written into `cell`.
    pub open spec fn with_cell(self, cell: int, piece: u8, turns: u8) -> State {
        State {
            placement: vstd::array::spec_array_update(self.placement, cell, piece),
            orientation: vstd::array::spec_array_update(self.orientation, cell, turns),
        }
    }

    /// The board with `piece`, turned by `turns`, placed at the frontier.
    pub open spec fn place(self, piece: u8, turns: u8) -> State {
        self.with_cell(self.frontier(), piece, turns)
    }

    /// Whether some cell holds the piece with index `piece`.
    pub fn contains(self, piece: u8) -> (found: bool)
        ensures
            found == self.uses(piece),
    {
        let mut c: usize = 0;
        while c < 9
            invariant
                c <= 9,
                forall|d: int| 0 <= d < c ==> self.placement[d] != piece,
            decreases 9 - c,
        {
            if self.placement[c] == piece {
                return true;
            }
            c += 1;
        }
        false
    }

    /// The board on which nothing has been placed yet: every cell is
    /// empty and unturned.
    pub open spec fn spec_empty() -> State {
        State {
            placement: vstd::array::spec_array_fill_for_copy_type::<u8, 9>(EMPTY_SENTINEL),
            orientation: vstd::array::spec_array_fill_for_copy_type::<u8, 9>(0),
        }
    }

    /// The board on which nothing has been placed yet.
    pub fn empty() -> (s: State)
        ensures
            s == State::spec_empty(),
            s.wf(),
            s.frontier() == 0,
    {
        let s = State { placement: [EMPTY_SENTINEL;9], orientation: [0;9] };
        proof {
            lemma_empty();
        }
        s
    }
}

proof fn lemma_frontier_exists_from(s: State, i: int)
    requires
        0 <= i <= 9,
        forall|c: int| 0 <= c < i ==> s.placement[c] != EMPTY_SENTINEL,
    ensures
        exists|f: int| s.is_frontier(f),
    decreases 9 - i,
{
    if i == 9 {
        assert(s.is_frontier(9));
    } else if s.placement[i] == EMPTY_SENTINEL {
        assert(s.is_frontier(i));
    } else {
        lemma_frontier_exists_from(s, i + 1);
    }
}

/// Every board has a frontier.
pub proof fn lemma_frontier(s: State)
    ensures
        s.is_frontier(s.frontier()),
        0 <= s.frontier() <= 9,
{
    lemma_frontier_exists_from(s, 0);
}

/// A board has only one frontier.
pub proof fn lemma_frontier_unique(s: State, f: int)
    requires
        s.is_frontier(f),
    ensures
        s.frontier() == f,
{
    lemma_frontier(s);
    let g = s.frontier();
    if g < f {
        assert(s.placement[g] != EMPTY_SENTINEL);
    } else if f < g {
        assert(s.placement[f] != EMPTY_SENTINEL);
    }
}

/// The index of the first empty cell of `state` in row-major order, or 9
/// if every cell is filled.
pub fn next_open(state: State) -> (open: usize)
    ensures
        open == state.frontier(),
        state.is_frontier(open as int),
{
    let mut i: usize = 0;
    while i < 9
        invariant
            i <= 9,
            forall|c: int| 0 <= c < i ==> state.placement[c] != EMPTY_SENTINEL,
        decreases 9 - i,
    {
        if state.placement[i] == EMPTY_SENTINEL {
            proof {
                lemma_frontier_unique(state, i as int);
            }
            return i;
        }
        i += 1;
    }
    proof {
        lemma_frontier_unique(state, 9);
    }
    9
}

/// The empty board is well-formed, and its frontier is cell 0.
pub proof fn lemma_empty()
    ensures
        State::spec_empty().wf(),
        State::spec_empty().frontier() == 0,
        forall|c: int|
            0 <= c < 9 ==> State::spec_empty().placement[c] == EMPTY_SENTINEL
                && State::spec_empty().orientation[c] == 0,
{
    lemma_frontier_unique(State::spec_empty(), 0);
}

/// What writing a cell changes: that cell, and no other.
pub proof fn lemma_with_cell(s: State, cell: int, piece: u8, turns: u8)
    requires
        0 <= cell < 9,
    ensures
        s.with_cell(cell, piece, turns).placement[cell] == piece,
        s.with_cell(cell, piece, turns).orientation[cell] == turns,
        forall|c: int|
            0 <= c < 9 && c != cell ==> s.with_cell(cell, piece, turns).placement[c]
                == s.placement[c] && s.with_cell(cell, piece, turns).orientation[c]
                == s.orientation[c],
{
}

/// Placing a free piece at the frontier of a well-formed board gives a
/// well-formed board whose frontier is one cell further on.
pub proof fn lemma_place(s: State, piece: u8, turns: u8)
    requires
        s.wf(),
        !s.complete(),
        piece < 9,
        turns < 4,
        !s.uses(piece),
    ensures
        s.place(piece, turns).wf(),
        s.place(piece, turns).frontier() == s.frontier() + 1,
        s.place(piece, turns).agrees_below(s, s.frontier()),
        s.place(piece, turns).placement[s.frontier()] == piece,
        s.place(piece, turns).orientation[s.frontier()] == turns,
{
    let f = s.frontier();
    let n = s.place(piece, turns);
    lemma_frontier(s);
    lemma_with_cell(s, f, piece, turns);
    assert(n.is_frontier(f + 1));
    lemma_frontier_unique(n, f + 1);
    assert forall|c: int, d: int|
        0 <= c < d < 9 && n.placement[c] != EMPTY_SENTINEL implies n.placement[c]
        != n.placement[d] by {
        if d == f {
            assert(s.placement[c] != piece);
        }
    }
}

/// Two boards that hold the same in every cell are the same board.
pub proof fn lemma_same_cells(a: State, b: State)
    requires
        a.agrees_below(b, 9),
    ensures
        a == b,
{
    assert(a.placement =~= b.placement);
    assert(a.orientation =~= b.orientation);
}

/// All 36 ways to fill the frontier of `s`, whether or not the piece is
/// still free: piece 0 in its four orientations first, piece 8 last.
pub open spec fn placements(s: State) -> Seq<State> {
    Seq::new(36, |k: int| s.place((k / 4) as u8, (k % 4) as u8))
}

/// The test that keeps the placements of pieces which `s` does not use.
pub open spec fn free_on(s: State) -> spec_fn(State) -> bool {
    |n: State| !s.uses(n.placement[s.frontier()])
}

/// The successors of `s`: no state if `s` is complete, else the
/// placements at its frontier of the pieces that it does not use yet, in
/// ascending order of piece and then of orientation.
pub open spec fn spec_neighbors(s: State) -> Seq<State> {
    if s.complete() {
        Seq::empty()
    } else {
        placements(s).filter(free_on(s))
    }
}

/// The states that follow `state` in the search: for each piece that
/// `state` does not use, in ascending order, `state` with that piece at
/// its frontier in the orientations 0 to 3.  A complete state has none.
pub fn neighbors(state: State) -> (result: Vec<State>)
    ensures
        result@ == spec_neighbors(state),
{
    let open = next_open(state);
    if open == 9 {
        return Vec::new();
    }
    let ghost all = placements(state);
    let ghost free = free_on(state);
    let mut result: Vec<State> = Vec::new();
    let mut i: u8 = 0;
    proof {
        reveal(Seq::filter);
        assert(all.take(0) =~= Seq::<State>::empty());
    }
    while i < 9
        invariant
            i <= 9,
            open == state.frontier(),
            open < 9,
            all == placements(state),
            free == free_on(state),
            result@ == all.take(4 * i).filter(free),
        decreases 9 - i,
    {
        if state.contains(i) {
            proof {
                lemma_with_cell(state, open as int, i, 0);
                lemma_with_cell(state, open as int, i, 1);
                lemma_with_cell(state, open as int, i, 2);
                lemma_with_cell(state, open as int, i, 3);
                lemma_filter_take_step(all, free, 4 * i);
                lemma_filter_take_step(all, free, 4 * i + 1);
                lemma_filter_take_step(all, free, 4 * i + 2);
                lemma_filter_take_step(all, free, 4 * i + 3);
            }
        } else {
            let mut j: u8 = 0;
            while j < 4
                invariant
                    j <= 4,
                    i < 9,
                    open == state.frontier(),
                    open < 9,
                    !state.uses(i),
                    all == placements(state),
                    free == free_on(state),
                    result@ == all.take(4 * i + j).filter(free),
                decreases 4 - j,
            {
                let mut new_state = state;
                new_state.placement[open] = i;
                new_state.orientation[open] = j;
                proof {
                    lemma_with_cell(state, open as int, i, j);
                    assert(new_state.placement =~= state.place(i, j).placement);
                    assert(new_state.orientation =~= state.place(i, j).orientation);
                    assert(all[4 * i + j] == state.place(i, j));
                    lemma_filter_take_step(all, free, 4 * i + j);
                }
                result.push(new_state);
                j += 1;
            }
        }
        i += 1;
    }
    proof {
        assert(all.take(36) =~= all);
    }
    result
}

} // verus!
