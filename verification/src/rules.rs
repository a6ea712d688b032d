//! The matching rules on a board: do all touching edges fit?

use crate::board::{lemma_frontier, next_open, State};
use crate::piece::{
    edge, mates, rotate, spec_edge, spec_mates, spec_rotate, Piece, PieceList, BOTTOM, LEFT, RIGHT,
    TOP,
};
use vstd::prelude::*;

verus! {

/// One interior edge of the grid: two cells that touch.
#[derive(Clone, Copy, Debug)]
pub struct Connection {
    /// The left cell of a horizontal pair, the upper cell of a vertical one.
    pub first: u8,
    /// The right cell of a horizontal pair, the lower cell of a vertical one.
    pub second: u8,
    /// Whether the two cells lie side by side (else one above the other).
    pub horizontal: bool,
    /// The least frontier at which both cells are filled.
    pub threshold: u8,
}

/// The twelve interior edges of the 3×3 grid: six horizontal pairs, then
/// six vertical pairs.
pub open spec fn spec_connections() -> Seq<Connection> {
    seq![
        Connection { first: 0, second: 1, horizontal: true, threshold: 2 },
        Connection { first: 1, second: 2, horizontal: true, threshold: 3 },
        Connection { first: 3, second: 4, horizontal: true, threshold: 5 },
        Connection { first: 4, second: 5, horizontal: true, threshold: 6 },
        Connection { first: 6, second: 7, horizontal: true, threshold: 8 },
        Connection { first: 7, second: 8, horizontal: true, threshold: 9 },
        Connection { first: 0, second: 3, horizontal: false, threshold: 4 },
        Connection { first: 1, second: 4, horizontal: false, threshold: 5 },
        Connection { first: 2, second: 5, horizontal: false, threshold: 6 },
        Connection { first: 3, second: 6, horizontal: false, threshold: 7 },
        Connection { first: 4, second: 7, horizontal: false, threshold: 8 },
        Connection { first: 5, second: 8, horizontal: false, threshold: 9 },
    ]
}

/// The table of the twelve interior edges of the grid.
pub fn connections() -> (table: [Connection; 12])
    ensures
        table@ == spec_connections(),
{
    let table = [
        Connection { first: 0, second: 1, horizontal: true, threshold: 2 },
        Connection { first: 1, second: 2, horizontal: true, threshold: 3 },
        Connection { first: 3, second: 4, horizontal: true, threshold: 5 },
        Connection { first: 4, second: 5, horizontal: true, threshold: 6 },
        Connection { first: 6, second: 7, horizontal: true, threshold: 8 },
        Connection { first: 7, second: 8, horizontal: true, threshold: 9 },
        Connection { first: 0, second: 3, horizontal: false, threshold: 4 },
        Connection { first: 1, second: 4, horizontal: false, threshold: 5 },
        Connection { first: 2, second: 5, horizontal: false, threshold: 6 },
        Connection { first: 3, second: 6, horizontal: false, threshold: 7 },
        Connection { first: 4, second: 7, horizontal: false, threshold: 8 },
        Connection { first: 5, second: 8, horizontal: false, threshold: 9 },
    ];
    assert(table@ =~= spec_connections());
    table
}

/// Cell `b` is the right-hand neighbour of cell `a`.
pub open spec fn beside(a: int, b: int) -> bool {
    0 <= a && b < 9 && b == a + 1 && a % 3 != 2
}

/// Cell `b` lies directly below cell `a`.
pub open spec fn above(a: int, b: int) -> bool {
    0 <= a && b < 9 && b == a + 3
}

/// The piece in `cell`, turned as the board says.
pub open spec fn spec_oriented(s: State, pieces: PieceList, cell: int) -> Piece {
    spec_rotate(pieces[s.placement[cell] as int], s.orientation[cell] as int)
}

/// The right edge of the piece in `a` fits the left edge of the piece in `b`.
pub open spec fn fits_sideways(s: State, pieces: PieceList, a: int, b: int) -> bool {
    spec_mates(
        spec_edge(spec_oriented(s, pieces, a), RIGHT as int),
        spec_edge(spec_oriented(s, pieces, b), LEFT as int),
    )
}

/// The bottom edge of the piece in `a` fits the top edge of the piece in `b`.
pub open spec fn fits_downwards(s: State, pieces: PieceList, a: int, b: int) -> bool {
    spec_mates(
        spec_edge(spec_oriented(s, pieces, a), BOTTOM as int),
        spec_edge(spec_oriented(s, pieces, b), TOP as int),
    )
}

/// A board is legal if every two filled cells that touch show fitting
/// edges to each other.  Cells from the frontier on are not looked at.
pub open spec fn spec_legal(s: State, pieces: PieceList) -> bool {
    &&& forall|a: int, b: int| #[trigger]
        beside(a, b) && b < s.frontier() ==> fits_sideways(s, pieces, a, b)
    &&& forall|a: int, b: int| #[trigger]
        above(a, b) && b < s.frontier() ==> fits_downwards(s, pieces, a, b)
}

/// What the table entry `link` asks of a board: nothing while one of its
/// cells is still open, else that the two touching edges fit.
pub open spec fn connection_holds(s: State, pieces: PieceList, link: Connection) -> bool {
    link.threshold <= s.frontier() ==> if link.horizontal {
        fits_sideways(s, pieces, link.first as int, link.second as int)
    } else {
        fits_downwards(s, pieces, link.first as int, link.second as int)
    }
}

/// The table lists exactly the pairs of touching cells, each with the
/// frontier from which on its second cell is filled.
pub proof fn lemma_connections_cover_grid()
    ensures
        forall|i: int|
            0 <= i < 12 ==> (#[trigger] spec_connections()[i]).threshold == spec_connections()[i].second + 1
                && if spec_connections()[i].horizontal {
                beside(spec_connections()[i].first as int, spec_connections()[i].second as int)
            } else {
                above(spec_connections()[i].first as int, spec_connections()[i].second as int)
            },
        forall|a: int, b: int| #[trigger]
            beside(a, b) ==> spec_connections()[a - a / 3].horizontal && spec_connections()[a - a / 3].first == a
                && spec_connections()[a - a / 3].second == b,
        forall|a: int, b: int| #[trigger]
            above(a, b) ==> !spec_connections()[6 + a].horizontal && spec_connections()[6 + a].first == a
                && spec_connections()[6 + a].second == b,
{
}

/// A legal board stays legal when cells are taken away from its end:
/// whatever it extends is legal too.
pub proof fn lemma_legal_prefix(t: State, s: State, pieces: PieceList)
    requires
        t.extends(s),
        spec_legal(t, pieces),
    ensures
        spec_legal(s, pieces),
{
    assert forall|a: int, b: int| #[trigger]
        beside(a, b) && b < s.frontier() implies fits_sideways(s, pieces, a, b) by {
        assert(fits_sideways(t, pieces, a, b));
    }
    assert forall|a: int, b: int| #[trigger]
        above(a, b) && b < s.frontier() implies fits_downwards(s, pieces, a, b) by {
        assert(fits_downwards(t, pieces, a, b));
    }
}

/// Legality looks at filled cells only: two boards with the same frontier
/// that hold the same in every cell before it are both legal or both not,
/// whatever their other cells hold.
pub proof fn lemma_legal_ignores_open_cells(a: State, b: State, pieces: PieceList)
    requires
        a.frontier() == b.frontier(),
        a.agrees_below(b, a.frontier()),
    ensures
        spec_legal(a, pieces) == spec_legal(b, pieces),
{
    assert(a.extends(b));
    assert(b.extends(a));
    if spec_legal(a, pieces) {
        lemma_legal_prefix(a, b, pieces);
    }
    if spec_legal(b, pieces) {
        lemma_legal_prefix(b, a, pieces);
    }
}

/// The piece that lies in `cell`, turned by the cell's orientation.
pub fn oriented(state: State, pieces: PieceList, cell: usize) -> (piece: Piece)
    requires
        cell < 9,
        state.placement[cell as int] < 9,
        state.orientation[cell as int] < 4,
    ensures
        piece == spec_oriented(state, pieces, cell as int),
{
    rotate(pieces[state.placement[cell] as usize], state.orientation[cell])
}

/// Whether every pair of touching filled cells of `state` shows fitting
/// edges: the same colour and opposite polarities.  Pairs with a cell at
/// or behind the frontier are skipped.
pub fn legal(state: State, pieces: PieceList) -> (ok: bool)
    requires
        state.filled_cells_valid(),
    ensures
        ok == spec_legal(state, pieces),
{
    let open = next_open(state);
    let table = connections();
    let mut i: usize = 0;
    while i < 12
        invariant
            i <= 12,
            table@ == spec_connections(),
            open == state.frontier(),
            state.filled_cells_valid(),
            forall|j: int| 0 <= j < i ==> connection_holds(state, pieces, #[trigger] spec_connections()[j]),
        decreases 12 - i,
    {
        let link = table[i];
        proof {
            lemma_connections_cover_grid();
        }
        if open >= link.threshold as usize {
            proof {
                lemma_frontier(state);
            }
            let first = oriented(state, pieces, link.first as usize);
            let second = oriented(state, pieces, link.second as usize);
            let fit = if link.horizontal {
                mates(edge(first, RIGHT), edge(second, LEFT))
            } else {
                mates(edge(first, BOTTOM), edge(second, TOP))
            };
            if !fit {
                return false;
            }
        }
        i += 1;
    }
    proof {
        lemma_connections_cover_grid();
        assert forall|a: int, b: int| #[trigger]
            beside(a, b) && b < state.frontier() implies fits_sideways(state, pieces, a, b) by {
            assert(connection_holds(state, pieces, spec_connections()[a - a / 3]));
        }
        assert forall|a: int, b: int| #[trigger]
            above(a, b) && b < state.frontier() implies fits_downwards(state, pieces, a, b) by {
            assert(connection_holds(state, pieces, spec_connections()[6 + a]));
        }
    }
    true
}

} // verus!
