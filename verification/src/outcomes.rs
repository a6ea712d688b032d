//! Puzzles whose outcome is known before any search.

use crate::board::{lemma_frontier, lemma_frontier_unique, lemma_with_cell, State};
use crate::piece::{
    lemma_edge_of_rotated, spec_color_field, spec_edge, spec_is_head, Piece, PieceList,
};
use crate::rules::{above, beside, fits_downwards, fits_sideways, spec_oriented};
use crate::search::{is_search_result, is_solution};
use vstd::prelude::*;

verus! {

/// All four edges of `piece` show the colour `color`, and their
/// polarities alternate around the piece.
pub open spec fn is_alternating(piece: Piece, color: u8) -> bool {
    &&& forall|position: int|
        0 <= position < 4 ==> spec_color_field(#[trigger] spec_edge(piece, position)) == color
    &&& spec_is_head(spec_edge(piece, 0)) == spec_is_head(spec_edge(piece, 2))
    &&& spec_is_head(spec_edge(piece, 1)) == spec_is_head(spec_edge(piece, 3))
    &&& spec_is_head(spec_edge(piece, 0)) != spec_is_head(spec_edge(piece, 1))
}

/// No edge of one piece shows the colour of an edge of another piece.
pub open spec fn no_common_color(pieces: PieceList) -> bool {
    forall|i: int, j: int, x: int, y: int|
        0 <= i < 9 && 0 <= j < 9 && i != j && 0 <= x < 4 && 0 <= y < 4 ==> spec_color_field(
            #[trigger] spec_edge(pieces[i], x),
        ) != spec_color_field(#[trigger] spec_edge(pieces[j], y))
}

/// Whether the piece in `cell` shows a head at its top in the
/// chessboard pattern.
pub open spec fn head_on_top(cell: int) -> bool {
    (cell / 3 + cell % 3) % 2 == 0
}

/// The quarter turns that bring the piece with index `cell` into the
/// chessboard pattern when it lies in cell `cell`.
pub open spec fn chessboard_turns(pieces: PieceList, cell: int) -> u8 {
    if spec_is_head(spec_edge(pieces[cell], 0)) == head_on_top(cell) {
        0
    } else {
        1
    }
}

/// `base` with the cells before `k` filled in the chessboard pattern:
/// piece `c` in cell `c`, turned so that heads and tails alternate from
/// cell to cell.
pub open spec fn chessboard(pieces: PieceList, base: State, k: int) -> State
    decreases k,
{
    if k <= 0 {
        base
    } else {
        chessboard(pieces, base, k - 1).with_cell(
            k - 1,
            (k - 1) as u8,
            chessboard_turns(pieces, k - 1),
        )
    }
}

proof fn lemma_chessboard_cells(pieces: PieceList, base: State, k: int)
    requires
        0 <= k <= 9,
    ensures
        forall|c: int|
            #![trigger chessboard(pieces, base, k).placement[c]]
            #![trigger chessboard(pieces, base, k).orientation[c]]
            0 <= c < k ==> chessboard(pieces, base, k).placement[c] == c && chessboard(
                pieces,
                base,
                k,
            ).orientation[c] == chessboard_turns(pieces, c),
    decreases k,
{
    if k > 0 {
        let before = chessboard(pieces, base, k - 1);
        let after = chessboard(pieces, base, k);
        lemma_chessboard_cells(pieces, base, k - 1);
        lemma_with_cell(before, k - 1, (k - 1) as u8, chessboard_turns(pieces, k - 1));
        assert(after == before.with_cell(k - 1, (k - 1) as u8, chessboard_turns(pieces, k - 1)));
        assert forall|c: int| 0 <= c < k implies after.placement[c] == c && after.orientation[c]
            == chessboard_turns(pieces, c) by {
            if c < k - 1 {
                assert(after.placement[c] == before.placement[c]);
                assert(after.orientation[c] == before.orientation[c]);
            }
        }
    }
}

proof fn lemma_chessboard_piece(pieces: PieceList, color: u8, t: State, c: int)
    requires
        0 <= c < 9,
        is_alternating(pieces[c], color),
        t.placement[c] == c,
        t.orientation[c] == chessboard_turns(pieces, c),
    ensures
        forall|position: int|
            0 <= position < 4 ==> spec_color_field(
                #[trigger] spec_edge(spec_oriented(t, pieces, c), position),
            ) == color,
        spec_is_head(spec_edge(spec_oriented(t, pieces, c), 0)) == head_on_top(c),
        spec_is_head(spec_edge(spec_oriented(t, pieces, c), 2)) == head_on_top(c),
        spec_is_head(spec_edge(spec_oriented(t, pieces, c), 1)) != head_on_top(c),
        spec_is_head(spec_edge(spec_oriented(t, pieces, c), 3)) != head_on_top(c),
{
    let turns = t.orientation[c] as int;
    lemma_edge_of_rotated(pieces[c], turns, 0);
    lemma_edge_of_rotated(pieces[c], turns, 1);
    lemma_edge_of_rotated(pieces[c], turns, 2);
    lemma_edge_of_rotated(pieces[c], turns, 3);
}

/// Pieces of one colour whose polarities alternate around each piece
/// always have a solution, in whatever orientation each piece is given:
/// a search for them never ends without one.
pub proof fn lemma_alternating_pieces_solvable(pieces: PieceList, color: u8)
    requires
        forall|i: int| 0 <= i < 9 ==> is_alternating(#[trigger] pieces[i], color),
    ensures
        exists|t: State| is_solution(t, pieces),
        forall|result: Option<State>| is_search_result(pieces, result) ==> result is Some,
{
    let t = chessboard(pieces, State::spec_empty(), 9);
    lemma_chessboard_cells(pieces, State::spec_empty(), 9);
    assert(t.is_frontier(9));
    lemma_frontier_unique(t, 9);
    assert forall|c: int| 0 <= c < 9 implies {
        &&& forall|position: int|
            0 <= position < 4 ==> spec_color_field(
                #[trigger] spec_edge(spec_oriented(t, pieces, c), position),
            ) == color
        &&& spec_is_head(spec_edge(spec_oriented(t, pieces, c), 0)) == head_on_top(c)
        &&& spec_is_head(spec_edge(spec_oriented(t, pieces, c), 2)) == head_on_top(c)
        &&& spec_is_head(spec_edge(spec_oriented(t, pieces, c), 1)) != head_on_top(c)
        &&& spec_is_head(spec_edge(spec_oriented(t, pieces, c), 3)) != head_on_top(c)
    } by {
        assert(is_alternating(pieces[c], color));
        lemma_chessboard_piece(pieces, color, t, c);
    }
    assert forall|a: int, b: int| #[trigger] beside(a, b) && b < t.frontier() implies fits_sideways(
        t,
        pieces,
        a,
        b,
    ) by {
        assert(head_on_top(a) != head_on_top(b));
        assert(spec_color_field(spec_edge(spec_oriented(t, pieces, a), 1)) == color);
        assert(spec_color_field(spec_edge(spec_oriented(t, pieces, b), 3)) == color);
    }
    assert forall|a: int, b: int| #[trigger] above(a, b) && b < t.frontier() implies fits_downwards(
        t,
        pieces,
        a,
        b,
    ) by {
        assert(head_on_top(a) != head_on_top(b));
        assert(spec_color_field(spec_edge(spec_oriented(t, pieces, a), 2)) == color);
        assert(spec_color_field(spec_edge(spec_oriented(t, pieces, b), 0)) == color);
    }
    assert(is_solution(t, pieces));
}

/// Pieces of which no two share a colour have no solution: a search for
/// them ends with `None`.
pub proof fn lemma_no_common_color_unsolvable(pieces: PieceList)
    requires
        no_common_color(pieces),
    ensures
        forall|t: State| !is_solution(t, pieces),
        forall|result: Option<State>| is_search_result(pieces, result) ==> result is None,
{
    assert forall|t: State| !is_solution(t, pieces) by {
        if is_solution(t, pieces) {
            lemma_frontier(t);
            assert(beside(0, 1));
            assert(fits_sideways(t, pieces, 0, 1));
            let i = t.placement[0] as int;
            let j = t.placement[1] as int;
            assert(i != j);
            lemma_edge_of_rotated(pieces[i], t.orientation[0] as int, 1);
            lemma_edge_of_rotated(pieces[j], t.orientation[1] as int, 3);
            let x = (1 - t.orientation[0] as int) % 4;
            let y = (3 - t.orientation[1] as int) % 4;
            assert(spec_color_field(spec_edge(pieces[i], x)) != spec_color_field(
                spec_edge(pieces[j], y),
            ));
        }
    }
    assert forall|result: Option<State>| is_search_result(pieces, result) implies result
        is None by {
        if result is Some {
            assert(is_solution(result->0, pieces));
        }
    }
}

} // verus!
