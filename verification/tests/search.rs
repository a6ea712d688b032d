use edge_match::piece::{encode_edge, pack};
use edge_match::{legal, neighbors, next_open, rotate, solve, PieceList, Search, State, Step};

/// Head, tail, head, tail going clockwise, all in one colour.
fn alternating(color: u8) -> u32 {
    let head = encode_edge(color, true);
    let tail = encode_edge(color, false);
    pack([head, tail, head, tail])
}

/// A puzzle cut from a solved board: every interior edge gets a colour of
/// its own, and every border edge a colour that fits nothing.
fn cut_puzzle() -> PieceList {
    let border = encode_edge(15, true);
    let mut pieces: PieceList = [0; 9];
    for cell in 0..9u8 {
        let row = cell / 3;
        let col = cell % 3;
        let top = if row == 0 { border } else { encode_edge(6 + (row - 1) * 3 + col, false) };
        let bottom = if row == 2 { border } else { encode_edge(6 + row * 3 + col, true) };
        let left = if col == 0 { border } else { encode_edge(row * 2 + col - 1, false) };
        let right = if col == 2 { border } else { encode_edge(row * 2 + col, true) };
        pieces[cell as usize] = pack([top, right, bottom, left]);
    }
    pieces
}

fn is_permutation(state: &State) -> bool {
    let mut seen = [false; 9];
    for piece in state.placement {
        if piece >= 9 || seen[piece as usize] {
            return false;
        }
        seen[piece as usize] = true;
    }
    true
}

/// Depth-first search written without a stack, highest candidate first.
fn backtrack(state: State, pieces: PieceList) -> Option<State> {
    let open = next_open(state);
    if open == 9 {
        return Some(state);
    }
    for piece in (0..9u8).rev() {
        if state.placement.contains(&piece) {
            continue;
        }
        for turns in (0..4u8).rev() {
            let mut next = state;
            next.placement[open] = piece;
            next.orientation[open] = turns;
            if legal(next, pieces) {
                if let Some(found) = backtrack(next, pieces) {
                    return Some(found);
                }
            }
        }
    }
    None
}

#[test]
fn alternating_pieces_are_solved() {
    let pieces: PieceList = [alternating(1); 9];
    assert_eq!(pieces[0], 0x10111011);
    let solution = solve(pieces).expect("a solution exists");
    assert_eq!(next_open(solution), 9);
    assert!(legal(solution, pieces));
    assert!(is_permutation(&solution));
    assert_eq!(solution.placement, [8, 7, 6, 5, 4, 3, 2, 1, 0]);
    assert_eq!(solution.orientation, [3, 2, 3, 2, 3, 2, 3, 2, 3]);
}

#[test]
fn alternating_pieces_are_solved_whatever_way_they_are_turned() {
    let mut pieces: PieceList = [0; 9];
    for i in 0..9 {
        pieces[i] = rotate(alternating(5), (i % 4) as u8);
    }
    let solution = solve(pieces).expect("a solution exists");
    assert_eq!(next_open(solution), 9);
    assert!(legal(solution, pieces));
    assert!(is_permutation(&solution));
    assert_eq!(Some(solution), backtrack(State::empty(), pieces));
}

#[test]
fn pieces_without_a_common_colour_have_no_solution() {
    let mut pieces: PieceList = [0; 9];
    for i in 0..9u8 {
        pieces[i as usize] = alternating(i);
    }
    assert_eq!(solve(pieces), None);
}

#[test]
fn pieces_of_one_polarity_have_no_solution() {
    let head = encode_edge(2, true);
    let pieces: PieceList = [pack([head, head, head, head]); 9];
    assert_eq!(solve(pieces), None);
}

#[test]
fn all_zero_pieces_have_no_solution() {
    assert_eq!(solve([0; 9]), None);
}

#[test]
fn solve_gives_the_same_answer_twice() {
    let puzzles: [PieceList; 3] = [[alternating(3); 9], cut_puzzle(), [0; 9]];
    for pieces in puzzles {
        assert_eq!(solve(pieces), solve(pieces));
    }
}

#[test]
fn cut_puzzle_is_put_together_again() {
    let pieces = cut_puzzle();
    let as_cut = State { placement: [0, 1, 2, 3, 4, 5, 6, 7, 8], orientation: [0; 9] };
    assert!(legal(as_cut, pieces));
    let solution = solve(pieces).expect("a solution exists");
    assert_eq!(solution.placement, [8, 7, 6, 5, 4, 3, 2, 1, 0]);
    assert_eq!(solution.orientation, [2; 9]);
    assert!(legal(solution, pieces));
    assert_eq!(Some(solution), backtrack(State::empty(), pieces));
}

#[test]
fn turned_and_shuffled_puzzle_is_solved() {
    let cut = cut_puzzle();
    let order: [usize; 9] = [4, 8, 0, 6, 2, 7, 1, 3, 5];
    let mut pieces: PieceList = [0; 9];
    for (i, from) in order.iter().enumerate() {
        pieces[i] = rotate(cut[*from], (i % 4) as u8);
    }
    let solution = solve(pieces).expect("a solution exists");
    assert_eq!(next_open(solution), 9);
    assert!(legal(solution, pieces));
    assert!(is_permutation(&solution));
    let mut undone = State::empty();
    for (i, from) in order.iter().enumerate() {
        undone.placement[*from] = i as u8;
        undone.orientation[*from] = ((4 - i % 4) % 4) as u8;
    }
    assert!(legal(undone, pieces));
    assert_eq!(solution.placement[0], 4);
    assert_eq!(Some(solution), backtrack(State::empty(), pieces));
}

#[test]
fn solve_finds_the_highest_solution() {
    let mut pieces: PieceList = [alternating(7); 9];
    pieces[0] = rotate(alternating(7), 1);
    let solution = solve(pieces).expect("a solution exists");
    assert_eq!(solution.placement, [8, 7, 6, 5, 4, 3, 2, 1, 0]);
    assert_eq!(solution.orientation, [3, 2, 3, 2, 3, 2, 3, 2, 2]);
    assert_eq!(Some(solution), backtrack(State::empty(), pieces));
}

#[test]
fn solve_agrees_with_plain_backtracking() {
    let mut seed: u32 = 12345;
    for _ in 0..20 {
        let mut pieces: PieceList = [0; 9];
        for piece in pieces.iter_mut() {
            let mut edges = [0u8; 4];
            for e in edges.iter_mut() {
                seed = seed.wrapping_mul(1664525).wrapping_add(1013904223);
                *e = encode_edge(((seed >> 16) % 2) as u8, (seed >> 24) % 2 == 1);
            }
            *piece = pack(edges);
        }
        let found = solve(pieces);
        assert_eq!(found, backtrack(State::empty(), pieces));
        if let Some(solution) = found {
            assert!(legal(solution, pieces));
            assert!(is_permutation(&solution));
        }
    }
}

#[test]
fn a_new_search_waits_with_the_empty_board() {
    let mut search = Search::new([alternating(1); 9]);
    assert_eq!(search.step(), Step::Expanded);
}

#[test]
fn stepping_ends_like_solve() {
    let puzzles: [PieceList; 3] = [[alternating(3); 9], cut_puzzle(), [0; 9]];
    for pieces in puzzles {
        let mut search = Search::new(pieces);
        let mut steps = 0;
        let outcome = loop {
            match search.step() {
                Step::Expanded => steps += 1,
                last => break last,
            }
        };
        assert!(steps >= 1);
        match solve(pieces) {
            Some(state) => assert_eq!(outcome, Step::Found(state)),
            None => assert_eq!(outcome, Step::Exhausted),
        }
        assert_eq!(search.step(), outcome);
    }
}

#[test]
fn a_hopeless_search_is_exhausted_after_one_expansion() {
    let mut search = Search::new([0; 9]);
    assert_eq!(search.step(), Step::Expanded);
    let mut steps = 1;
    while search.step() == Step::Expanded {
        steps += 1;
    }
    assert_eq!(steps, 37);
    assert_eq!(search.step(), Step::Exhausted);
}

#[test]
fn every_neighbor_of_a_solution_prefix_keeps_the_prefix() {
    let pieces = cut_puzzle();
    let solution = solve(pieces).expect("a solution exists");
    let mut prefix = State::empty();
    for cell in 0..9 {
        let next = neighbors(prefix);
        assert_eq!(next.len(), 4 * (9 - cell));
        prefix.placement[cell] = solution.placement[cell];
        prefix.orientation[cell] = solution.orientation[cell];
        assert!(next.contains(&prefix));
        assert!(legal(prefix, pieces));
    }
    assert_eq!(prefix, solution);
}
