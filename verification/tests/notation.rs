use edge_match::notation::{
    color_tags, edge_from_word, find_color, parse_colors, parse_puzzle, piece_from_words,
    puzzle_from_words, NotationError, Puzzle,
};
use edge_match::piece::{encode_edge, pack};
use edge_match::{solve, PieceList};

#[test]
fn find_color_gives_the_first_place() {
    let colors = vec!['a', 'b', 'c', 'b'];
    assert_eq!(find_color(&colors, 'a'), Some(0));
    assert_eq!(find_color(&colors, 'b'), Some(1));
    assert_eq!(find_color(&colors, 'c'), Some(2));
    assert_eq!(find_color(&colors, 'd'), None);
    assert_eq!(find_color(&Vec::new(), 'a'), None);
}

#[test]
fn color_tags_take_the_first_character_of_each_word() {
    assert_eq!(color_tags(&vec!["red", "green", "blue"]), Ok(vec!['r', 'g', 'b']));
    assert_eq!(color_tags(&vec!["x"]), Ok(vec!['x']));
    assert_eq!(color_tags(&vec!["äh", "é"]), Ok(vec!['ä', 'é']));
    assert_eq!(color_tags(&Vec::new()), Ok(Vec::new()));
}

#[test]
fn color_tags_refuse_an_empty_word() {
    assert_eq!(color_tags(&vec!["a", "", "c"]), Err(NotationError::EmptyWord));
}

#[test]
fn edge_word_is_colour_and_polarity() {
    let colors = vec!['a', 'b', 'c'];
    assert_eq!(edge_from_word("aH", &colors, 0), Ok(0x01));
    assert_eq!(edge_from_word("aT", &colors, 0), Ok(0x00));
    assert_eq!(edge_from_word("bH", &colors, 0), Ok(0x11));
    assert_eq!(edge_from_word("cT", &colors, 5), Ok(0x20));
    assert_eq!(edge_from_word("cH", &colors, 5), Ok(encode_edge(2, true) as u32));
}

#[test]
fn edge_word_errors() {
    let colors = vec!['a', 'b', 'é'];
    assert_eq!(edge_from_word("", &colors, 0), Err(NotationError::EmptyWord));
    assert_eq!(edge_from_word("éH", &colors, 0), Err(NotationError::SplitInsideChar));
    assert_eq!(edge_from_word("a", &colors, 0), Err(NotationError::HeadTail { line: 2 }));
    assert_eq!(edge_from_word("aX", &colors, 3), Err(NotationError::HeadTail { line: 5 }));
    assert_eq!(edge_from_word("ah", &colors, 3), Err(NotationError::HeadTail { line: 5 }));
    assert_eq!(edge_from_word("aHH", &colors, 1), Err(NotationError::HeadTail { line: 3 }));
    assert_eq!(edge_from_word("zX", &colors, 1), Err(NotationError::HeadTail { line: 3 }));
    assert_eq!(edge_from_word("zH", &colors, 1), Err(NotationError::ColorNotFound));
    assert_eq!(edge_from_word("aé", &colors, 0), Err(NotationError::HeadTail { line: 2 }));
}

#[test]
fn colours_above_fifteen_run_into_the_next_byte() {
    let colors: Vec<char> = ('a'..='z').collect();
    assert_eq!(edge_from_word("pH", &colors, 0), Ok(0xF1));
    assert_eq!(edge_from_word("qH", &colors, 0), Ok(0x101));
    assert_eq!(piece_from_words(&vec!["qH", "aT"], &colors, 0), Ok(0x0101));
}

#[test]
fn piece_words_fill_the_bytes_from_the_low_end() {
    let colors = vec!['a', 'b', 'c'];
    assert_eq!(piece_from_words(&vec!["aH", "bT", "cH", "bH"], &colors, 0), Ok(0x11211001));
    assert_eq!(
        piece_from_words(&vec!["aH", "bT", "cH", "bH"], &colors, 0),
        Ok(pack([
            encode_edge(0, true),
            encode_edge(1, false),
            encode_edge(2, true),
            encode_edge(1, true)
        ]))
    );
    assert_eq!(piece_from_words(&vec!["cH"], &colors, 0), Ok(0x21));
    assert_eq!(piece_from_words(&Vec::new(), &colors, 0), Ok(0));
}

#[test]
fn piece_errors_come_in_reading_order() {
    let colors = vec!['a', 'b'];
    assert_eq!(
        piece_from_words(&vec!["aH", "bT", "aH", "bT", "aH"], &colors, 0),
        Err(NotationError::TooManyEdges)
    );
    assert_eq!(
        piece_from_words(&vec!["aH", "bT", "aH", "bT", "aX"], &colors, 7),
        Err(NotationError::HeadTail { line: 9 })
    );
    assert_eq!(
        piece_from_words(&vec!["aH", "zT", "aX"], &colors, 0),
        Err(NotationError::ColorNotFound)
    );
    assert_eq!(
        piece_from_words(&vec!["aH", "bX", "zT"], &colors, 0),
        Err(NotationError::HeadTail { line: 2 })
    );
}

#[test]
fn puzzle_from_words_reads_colours_and_pieces() {
    let table = vec![vec!["a", "b"], vec!["aH", "bT", "aH", "bT"], vec![], vec!["bH"]];
    let mut pieces: PieceList = [0; 9];
    pieces[0] = 0x10011001;
    pieces[2] = 0x11;
    assert_eq!(puzzle_from_words(&table), Ok(Puzzle { colors: vec!['a', 'b'], pieces }));
}

#[test]
fn puzzle_from_words_errors() {
    assert_eq!(puzzle_from_words(&Vec::new()), Err(NotationError::NoColors));
    assert_eq!(puzzle_from_words(&vec![vec!["a", ""]]), Err(NotationError::EmptyWord));
    let mut table = vec![vec!["a"]];
    for _ in 0..9 {
        table.push(vec!["aH"]);
    }
    assert!(puzzle_from_words(&table).is_ok());
    table.push(vec![]);
    assert_eq!(puzzle_from_words(&table), Err(NotationError::TooManyPieces));
    table[10] = vec!["aX"];
    assert_eq!(puzzle_from_words(&table), Err(NotationError::HeadTail { line: 11 }));
    table[3] = vec!["bH"];
    assert_eq!(puzzle_from_words(&table), Err(NotationError::ColorNotFound));
}

#[test]
fn only_colours_give_nine_blank_pieces() {
    assert_eq!(
        puzzle_from_words(&vec![vec!["r", "g"]]),
        Ok(Puzzle { colors: vec!['r', 'g'], pieces: [0; 9] })
    );
}

#[test]
fn parse_puzzle_cuts_lines_and_words() {
    let text = "red green\nrH gT rH gT\n  gH\t rT \r\n\ngT\n";
    let mut pieces: PieceList = [0; 9];
    pieces[0] = 0x10001000 | 0x00010001;
    pieces[1] = 0x0011;
    pieces[3] = 0x10;
    assert_eq!(parse_puzzle(text), Ok(Puzzle { colors: vec!['r', 'g'], pieces }));
    assert_eq!(parse_colors(text), Ok(vec!['r', 'g']));
}

#[test]
fn parse_puzzle_without_final_newline() {
    let text = "a\naH aT";
    let mut pieces: PieceList = [0; 9];
    pieces[0] = 0x0001;
    assert_eq!(parse_puzzle(text), Ok(Puzzle { colors: vec!['a'], pieces }));
}

#[test]
fn parse_puzzle_errors() {
    assert_eq!(parse_puzzle(""), Err(NotationError::NoColors));
    assert_eq!(parse_colors(""), Err(NotationError::NoColors));
    assert_eq!(parse_puzzle("a b\naH bT\naH cT\n"), Err(NotationError::ColorNotFound));
    assert_eq!(parse_colors("a b\naH bT\naH cT\n"), Ok(vec!['a', 'b']));
    assert_eq!(parse_puzzle("a b\naH bT\naH b\n"), Err(NotationError::HeadTail { line: 3 }));
    assert_eq!(parse_puzzle("a b\naH bT aH bT bT\n"), Err(NotationError::TooManyEdges));
    assert_eq!(parse_puzzle("ä\näH\n"), Err(NotationError::SplitInsideChar));
    assert_eq!(
        parse_puzzle("a\naH\naH\naH\naH\naH\naH\naH\naH\naH\naH\n"),
        Err(NotationError::TooManyPieces)
    );
}

#[test]
fn an_empty_first_line_names_no_colours() {
    assert_eq!(parse_puzzle("\n"), Ok(Puzzle { colors: Vec::new(), pieces: [0; 9] }));
    assert_eq!(parse_puzzle("\naH\n"), Err(NotationError::ColorNotFound));
}

#[test]
fn a_parsed_puzzle_can_be_solved() {
    let mut text = String::from("x\n");
    for _ in 0..9 {
        text.push_str("xH xT xH xT\n");
    }
    let puzzle = parse_puzzle(&text).expect("well-formed text");
    assert_eq!(puzzle.pieces, [0x00010001; 9]);
    let solution = solve(puzzle.pieces).expect("a solution exists");
    assert_eq!(solution.placement, [8, 7, 6, 5, 4, 3, 2, 1, 0]);
    assert_eq!(solution.orientation, [3, 2, 3, 2, 3, 2, 3, 2, 3]);
}
