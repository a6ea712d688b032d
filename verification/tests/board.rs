use edge_match::rules::{connections, oriented};
use edge_match::{legal, neighbors, next_open, PieceList, State, EMPTY_SENTINEL};

const E: u8 = EMPTY_SENTINEL;

fn board(cells: &[(u8, u8)]) -> State {
    let mut state = State::empty();
    for (cell, (piece, turns)) in cells.iter().enumerate() {
        state.placement[cell] = *piece;
        state.orientation[cell] = *turns;
    }
    state
}

#[test]
fn empty_board_has_nothing_placed() {
    let state = State::empty();
    assert_eq!(state.placement, [E; 9]);
    assert_eq!(state.orientation, [0; 9]);
    assert_eq!(EMPTY_SENTINEL, 0xFF);
}

#[test]
fn next_open_of_empty_board_is_zero() {
    assert_eq!(next_open(State::empty()), 0);
}

#[test]
fn next_open_counts_the_filled_prefix() {
    assert_eq!(next_open(board(&[(4, 0)])), 1);
    assert_eq!(next_open(board(&[(4, 0), (2, 3), (7, 1)])), 3);
    assert_eq!(next_open(board(&[(0, 0), (1, 0), (2, 0), (3, 0), (4, 0), (5, 0), (6, 0), (7, 0)])), 8);
}

#[test]
fn next_open_of_full_board_is_nine() {
    let state = State { placement: [8, 7, 6, 5, 4, 3, 2, 1, 0], orientation: [0; 9] };
    assert_eq!(next_open(state), 9);
}

#[test]
fn next_open_finds_the_first_gap() {
    let state = State { placement: [3, E, 5, E, E, 1, E, E, E], orientation: [0; 9] };
    assert_eq!(next_open(state), 1);
}

#[test]
fn contains_looks_at_every_cell() {
    let state = State { placement: [3, E, 5, E, E, 1, E, E, E], orientation: [0; 9] };
    assert!(state.contains(3));
    assert!(state.contains(5));
    assert!(state.contains(1));
    assert!(!state.contains(0));
    assert!(!state.contains(8));
    assert!(state.contains(E));
    assert!(!State::empty().contains(0));
}

#[test]
fn neighbors_of_empty_board_are_all_placements_in_cell_zero() {
    let next = neighbors(State::empty());
    assert_eq!(next.len(), 36);
    for (k, state) in next.iter().enumerate() {
        let mut expected = State::empty();
        expected.placement[0] = (k / 4) as u8;
        expected.orientation[0] = (k % 4) as u8;
        assert_eq!(*state, expected);
    }
}

#[test]
fn neighbors_leave_out_used_pieces() {
    let state = board(&[(4, 1), (0, 2)]);
    let next = neighbors(state);
    assert_eq!(next.len(), 28);
    let free: [u8; 7] = [1, 2, 3, 5, 6, 7, 8];
    for (k, n) in next.iter().enumerate() {
        let mut expected = state;
        expected.placement[2] = free[k / 4];
        expected.orientation[2] = (k % 4) as u8;
        assert_eq!(*n, expected);
    }
}

#[test]
fn neighbors_of_last_open_cell() {
    let state = board(&[(8, 0), (7, 0), (6, 0), (5, 0), (4, 0), (3, 0), (2, 0), (1, 0)]);
    let next = neighbors(state);
    assert_eq!(next.len(), 4);
    for (k, n) in next.iter().enumerate() {
        assert_eq!(n.placement, [8, 7, 6, 5, 4, 3, 2, 1, 0]);
        assert_eq!(n.orientation, [0, 0, 0, 0, 0, 0, 0, 0, k as u8]);
    }
}

#[test]
fn neighbors_of_complete_board_are_none() {
    let state = State { placement: [8, 7, 6, 5, 4, 3, 2, 1, 0], orientation: [0; 9] };
    assert!(neighbors(state).is_empty());
}

#[test]
fn neighbors_never_use_a_piece_twice() {
    let mut level = vec![State::empty()];
    for depth in 0..3 {
        let mut below = Vec::new();
        for state in &level {
            for n in neighbors(*state) {
                assert_eq!(next_open(n), depth + 1);
                for c in 0..9 {
                    for d in (c + 1)..9 {
                        assert!(n.placement[c] == E || n.placement[c] != n.placement[d]);
                    }
                }
                if n.orientation[depth] == 0 {
                    below.push(n);
                }
            }
        }
        level = below;
    }
    assert_eq!(level.len(), 9 * 8 * 7);
}

#[test]
fn connection_table_lists_the_twelve_interior_edges() {
    let table = connections();
    assert_eq!(table.len(), 12);
    let expected: [(u8, u8, bool, u8); 12] = [
        (0, 1, true, 2),
        (1, 2, true, 3),
        (3, 4, true, 5),
        (4, 5, true, 6),
        (6, 7, true, 8),
        (7, 8, true, 9),
        (0, 3, false, 4),
        (1, 4, false, 5),
        (2, 5, false, 6),
        (3, 6, false, 7),
        (4, 7, false, 8),
        (5, 8, false, 9),
    ];
    for (link, want) in table.iter().zip(expected.iter()) {
        assert_eq!((link.first, link.second, link.horizontal, link.threshold), *want);
    }
}

#[test]
fn oriented_turns_the_piece_of_a_cell() {
    let mut pieces: PieceList = [0; 9];
    pieces[4] = 0x04030201;
    pieces[2] = 0xDDCCBBAA;
    let state = board(&[(4, 1), (2, 0), (0, 3)]);
    assert_eq!(oriented(state, pieces, 0), 0x03020104);
    assert_eq!(oriented(state, pieces, 1), 0xDDCCBBAA);
    assert_eq!(oriented(state, pieces, 2), 0);
}

fn two_pieces(first: [u8; 4], second: [u8; 4]) -> PieceList {
    let mut pieces: PieceList = [0; 9];
    pieces[0] = edge_match::piece::pack(first);
    pieces[1] = edge_match::piece::pack(second);
    pieces
}

#[test]
fn empty_board_is_legal() {
    assert!(legal(State::empty(), [0; 9]));
    assert!(legal(State::empty(), [0xDDCCBBAA; 9]));
}

#[test]
fn a_single_piece_is_legal() {
    for turns in 0u8..4 {
        assert!(legal(board(&[(3, turns)]), [0x77777777; 9]));
    }
}

#[test]
fn right_edge_must_fit_left_edge_of_the_neighbour() {
    let pieces = two_pieces([0x50, 0x11, 0x60, 0x70], [0x80, 0x90, 0xA0, 0x10]);
    assert!(legal(board(&[(0, 0), (1, 0)]), pieces));
    assert!(!legal(board(&[(1, 0), (0, 0)]), pieces));
    let same_polarity = two_pieces([0x50, 0x11, 0x60, 0x70], [0x80, 0x90, 0xA0, 0x11]);
    assert!(!legal(board(&[(0, 0), (1, 0)]), same_polarity));
    let other_colour = two_pieces([0x50, 0x11, 0x60, 0x70], [0x80, 0x90, 0xA0, 0x20]);
    assert!(!legal(board(&[(0, 0), (1, 0)]), other_colour));
}

#[test]
fn left_edge_of_the_first_cell_does_not_count() {
    let pieces = two_pieces([0x50, 0x60, 0x70, 0x11], [0x80, 0x10, 0xA0, 0x90]);
    assert!(!legal(board(&[(0, 0), (1, 0)]), pieces));
}

#[test]
fn orientation_decides_which_edges_touch() {
    let pieces = two_pieces([0x11, 0x50, 0x60, 0x70], [0x80, 0x90, 0x10, 0xA0]);
    assert!(!legal(board(&[(0, 0), (1, 0)]), pieces));
    assert!(legal(board(&[(0, 1), (1, 1)]), pieces));
    assert!(!legal(board(&[(0, 1), (1, 0)]), pieces));
    assert!(!legal(board(&[(0, 2), (1, 1)]), pieces));
}

#[test]
fn bottom_edge_must_fit_top_edge_of_the_cell_below() {
    let mut pieces: PieceList = [0; 9];
    pieces[0] = edge_match::piece::pack([0x50, 0x21, 0x31, 0x60]);
    pieces[1] = edge_match::piece::pack([0x70, 0x41, 0x80, 0x20]);
    pieces[2] = edge_match::piece::pack([0x90, 0xA0, 0xB0, 0x40]);
    pieces[3] = edge_match::piece::pack([0x30, 0xC0, 0xD0, 0xE0]);
    pieces[4] = edge_match::piece::pack([0x31, 0xC0, 0xD0, 0xE0]);
    assert!(legal(board(&[(0, 0), (1, 0), (2, 0)]), pieces));
    assert!(legal(board(&[(0, 0), (1, 0), (2, 0), (3, 0)]), pieces));
    assert!(!legal(board(&[(0, 0), (1, 0), (2, 0), (4, 0)]), pieces));
}

#[test]
fn legal_skips_pairs_at_or_behind_the_frontier() {
    let pieces = two_pieces([0x50, 0x11, 0x60, 0x70], [0x80, 0x90, 0xA0, 0x33]);
    assert!(!legal(board(&[(0, 0), (1, 0)]), pieces));
    let mut gap = board(&[(0, 0)]);
    gap.placement[2] = 1;
    assert!(legal(gap, pieces));
}

#[test]
fn legal_ignores_what_open_cells_hold() {
    let pieces = two_pieces([0x50, 0x11, 0x60, 0x70], [0x80, 0x90, 0xA0, 0x10]);
    let tidy = board(&[(0, 0), (1, 0)]);
    let mut messy = tidy;
    messy.orientation[2] = 3;
    messy.placement[3] = 7;
    messy.orientation[3] = 200;
    messy.placement[8] = 42;
    assert_eq!(next_open(messy), 2);
    assert_eq!(legal(tidy, pieces), legal(messy, pieces));
    assert!(legal(messy, pieces));
    let bad = two_pieces([0x50, 0x11, 0x60, 0x70], [0x80, 0x90, 0xA0, 0x11]);
    assert_eq!(legal(tidy, bad), legal(messy, bad));
    assert!(!legal(messy, bad));
}
