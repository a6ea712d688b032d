//! The text notation of a puzzle.
//!
//! The first line names the colours, one word for each colour; only the
//! first character of a word counts.  Every further line describes one
//! piece by up to four words, one for each edge in the order top, right,
//! bottom, left.  A word is the character of a colour followed by `H`
//! for a head or `T` for a tail.

use crate::piece::{spec_encode_edge, spec_pack, Piece, PieceList};
use vstd::prelude::*;
use vstd::string::*;

verus! {

/// Why a text is not the notation of a puzzle.
#[derive(Clone, Copy, Debug, PartialEq, Eq)]
pub enum NotationError {
    /// The text has no line at all.
    NoColors,
    /// A word without a character.
    EmptyWord,
    /// The first character of an edge word takes more than one byte, so
    /// the word cannot be cut behind its first byte.
    SplitInsideChar,
    /// What follows the colour of an edge word is neither `H` nor `T`.
    /// `line` counts from 2 for the first piece.
    HeadTail { line: usize },
    /// The colour of an edge word is not among the colours of the first
    /// line.
    ColorNotFound,
    /// A piece with more than four edges.
    TooManyEdges,
    /// More than nine pieces.
    TooManyPieces,
}

/// A puzzle as its notation gives it.
#[derive(Debug, PartialEq, Eq)]
pub struct Puzzle {
    /// The characters that stand for the colours 0, 1, 2 and so on.
    pub colors: Vec<char>,
    /// The nine pieces; pieces that the text does not describe are 0.
    pub pieces: PieceList,
}

/// The lines of a text, as `str::lines` cuts them.
pub uninterp spec fn spec_lines(text: Seq<char>) -> Seq<Seq<char>>;

/// The words of a line, as `str::split_whitespace` cuts them.
pub uninterp spec fn spec_words(line: Seq<char>) -> Seq<Seq<char>>;

/// The characters of each word.
pub open spec fn words_view(words: Seq<&str>) -> Seq<Seq<char>> {
    words.map_values(|word: &str| word@)
}

/// The characters of each word of each line.
pub open spec fn table_view(table: Seq<Vec<&str>>) -> Seq<Seq<Seq<char>>> {
    table.map_values(|row: Vec<&str>| words_view(row@))
}

/// The words of each line of a text.
pub open spec fn spec_table(text: Seq<char>) -> Seq<Seq<Seq<char>>> {
    spec_lines(text).map_values(|line: Seq<char>| spec_words(line))
}

/// Calls `str::lines`.  Its result is taken as it comes and only given
/// the name `spec_lines`: nothing is claimed about where the lines end.
#[verifier::external_body]
fn lines_of<'a>(text: &'a str) -> (lines: Vec<&'a str>)
    ensures
        words_view(lines@) == spec_lines(text@),
{
    text.lines().collect()
}

/// Calls `str::split_whitespace`.  Its result is taken as it comes and
/// only given the name `spec_words`: nothing is claimed about what counts
/// as whitespace.
#[verifier::external_body]
fn words_of<'a>(line: &'a str) -> (words: Vec<&'a str>)
    ensures
        words_view(words@) == spec_words(line@),
{
    line.split_whitespace().collect()
}

/// The first index at or behind `k` at which `colors` holds `tag`.
pub open spec fn spec_position_from(colors: Seq<char>, tag: char, k: int) -> Option<int>
    decreases colors.len() - k,
{
    if k < 0 || k >= colors.len() {
        None
    } else if colors[k] == tag {
        Some(k)
    } else {
        spec_position_from(colors, tag, k + 1)
    }
}

/// The colours that the words of the first line name: the first
/// character of each word.
pub open spec fn spec_color_tags(words: Seq<Seq<char>>) -> Result<Seq<char>, NotationError> {
    if exists|j: int| 0 <= j < words.len() && #[trigger] words[j].len() == 0 {
        Err(NotationError::EmptyWord)
    } else {
        Ok(words.map_values(|word: Seq<char>| word[0]))
    }
}

/// The value of one edge word on line `line` of the pieces: the index of
/// its colour, shifted up by four bits, with the polarity in bit 0.
pub open spec fn spec_edge_value(word: Seq<char>, colors: Seq<char>, line: int) -> Result<
    u32,
    NotationError,
> {
    if word.len() == 0 {
        Err(NotationError::EmptyWord)
    } else if word[0] as u32 >= 128 {
        Err(NotationError::SplitInsideChar)
    } else if !(word.len() == 2 && (word[1] == 'H' || word[1] == 'T')) {
        Err(NotationError::HeadTail { line: (line + 2) as usize })
    } else {
        match spec_position_from(colors, word[0], 0) {
            None => Err(NotationError::ColorNotFound),
            Some(index) => Ok(
                ((index as u32) << 4) | (if word[1] == 'H' {
                    1u32
                } else {
                    0u32
                }),
            ),
        }
    }
}

/// The piece that the first `n` words of a line describe.  The words are
/// read in their order, and the first that fails decides the error.
pub open spec fn spec_piece_upto(
    words: Seq<Seq<char>>,
    colors: Seq<char>,
    line: int,
    n: int,
) -> Result<Piece, NotationError>
    decreases n,
{
    if n <= 0 {
        Ok(0u32)
    } else {
        match spec_piece_upto(words, colors, line, n - 1) {
            Err(e) => Err(e),
            Ok(piece) => match spec_edge_value(words[n - 1], colors, line) {
                Err(e) => Err(e),
                Ok(value) => if n - 1 >= 4 {
                    Err(NotationError::TooManyEdges)
                } else {
                    Ok(piece | (value << ((8 * (n - 1)) as u32)))
                },
            },
        }
    }
}

/// The piece that line `line` of the pieces describes.
pub open spec fn spec_piece(words: Seq<Seq<char>>, colors: Seq<char>, line: int) -> Result<
    Piece,
    NotationError,
> {
    spec_piece_upto(words, colors, line, words.len() as int)
}

/// Nine pieces that are all 0.
pub open spec fn spec_blank_pieces() -> PieceList {
    vstd::array::spec_array_fill_for_copy_type::<u32, 9>(0)
}

/// The pieces that the first `n` lines behind the colours describe.
/// The lines are read in their order, and the first that fails decides
/// the error.
pub open spec fn spec_pieces_upto(table: Seq<Seq<Seq<char>>>, colors: Seq<char>, n: int) -> Result<
    PieceList,
    NotationError,
>
    decreases n,
{
    if n <= 0 {
        Ok(spec_blank_pieces())
    } else {
        match spec_pieces_upto(table, colors, n - 1) {
            Err(e) => Err(e),
            Ok(pieces) => match spec_piece(table[n], colors, n - 1) {
                Err(e) => Err(e),
                Ok(piece) => if n - 1 >= 9 {
                    Err(NotationError::TooManyPieces)
                } else {
                    Ok(vstd::array::spec_array_update(pieces, n - 1, piece))
                },
            },
        }
    }
}

/// The puzzle that a text describes, given the words of its lines.
pub open spec fn spec_puzzle(table: Seq<Seq<Seq<char>>>) -> Result<
    (Seq<char>, PieceList),
    NotationError,
> {
    if table.len() == 0 {
        Err(NotationError::NoColors)
    } else {
        match spec_color_tags(table[0]) {
            Err(e) => Err(e),
            Ok(colors) => match spec_pieces_upto(table, colors, table.len() - 1) {
                Err(e) => Err(e),
                Ok(pieces) => Ok((colors, pieces)),
            },
        }
    }
}

/// `outcome` is what `expected` asks for.
pub open spec fn is_puzzle(
    outcome: Result<Puzzle, NotationError>,
    expected: Result<(Seq<char>, PieceList), NotationError>,
) -> bool {
    match outcome {
        Ok(puzzle) => expected == Ok::<(Seq<char>, PieceList), NotationError>(
            (puzzle.colors@, puzzle.pieces),
        ),
        Err(e) => expected == Err::<(Seq<char>, PieceList), NotationError>(e),
    }
}

/// The index of the first occurrence of `tag` in `colors`.
pub fn find_color(colors: &Vec<char>, tag: char) -> (found: Option<usize>)
    ensures
        match found {
            Some(index) => spec_position_from(colors@, tag, 0) == Some(index as int),
            None => spec_position_from(colors@, tag, 0) is None,
        },
{
    let mut k: usize = 0;
    while k < colors.len()
        invariant
            k <= colors.len(),
            spec_position_from(colors@, tag, 0) == spec_position_from(colors@, tag, k as int),
        decreases colors.len() - k,
    {
        if colors[k] == tag {
            return Some(k);
        }
        k += 1;
    }
    None
}

/// Reads the colours off the words of the first line.
pub fn color_tags(words: &Vec<&str>) -> (result: Result<Vec<char>, NotationError>)
    ensures
        match result {
            Ok(colors) => spec_color_tags(words_view(words@)) == Ok::<Seq<char>, NotationError>(
                colors@,
            ),
            Err(e) => spec_color_tags(words_view(words@)) == Err::<Seq<char>, NotationError>(e),
        },
{
    let ghost view = words_view(words@);
    let mut colors: Vec<char> = Vec::new();
    let mut j: usize = 0;
    while j < words.len()
        invariant
            j <= words.len(),
            view == words_view(words@),
            colors@.len() == j,
            forall|i: int| 0 <= i < j ==> (#[trigger] view[i]).len() > 0 && colors@[i] == view[i][0],
        decreases words.len() - j,
    {
        let word = words[j];
        assert(view[j as int] == word@);
        if word.unicode_len() == 0 {
            return Err(NotationError::EmptyWord);
        }
        colors.push(word.get_char(0));
        j += 1;
    }
    assert(colors@ =~= view.map_values(|word: Seq<char>| word[0]));
    Ok(colors)
}

/// Reads one edge word of line `line` of the pieces.
pub fn edge_from_word(word: &str, colors: &Vec<char>, line: usize) -> (result: Result<
    u32,
    NotationError,
>)
    requires
        line + 2 <= usize::MAX,
    ensures
        result == spec_edge_value(word@, colors@, line as int),
{
    let length = word.unicode_len();
    if length == 0 {
        return Err(NotationError::EmptyWord);
    }
    let tag = word.get_char(0);
    if tag as u32 >= 128 {
        return Err(NotationError::SplitInsideChar);
    }
    if length != 2 {
        return Err(NotationError::HeadTail { line: line + 2 });
    }
    let polarity = word.get_char(1);
    let mask: u32 = if polarity == 'H' {
        1
    } else if polarity == 'T' {
        0
    } else {
        return Err(NotationError::HeadTail { line: line + 2 });
    };
    match find_color(colors, tag) {
        None => Err(NotationError::ColorNotFound),
        Some(index) => {
            let byte: u32 = #[verifier::truncate]
            (index as u32);
            Ok((byte << 4) | mask)
        },
    }
}

/// Reads the piece of line `line` of the pieces off its words.
pub fn piece_from_words(words: &Vec<&str>, colors: &Vec<char>, line: usize) -> (result: Result<
    Piece,
    NotationError,
>)
    requires
        line + 2 <= usize::MAX,
    ensures
        result == spec_piece(words_view(words@), colors@, line as int),
{
    let ghost view = words_view(words@);
    let mut piece: Piece = 0;
    let mut j: usize = 0;
    while j < words.len()
        invariant
            j <= words.len(),
            line + 2 <= usize::MAX,
            view == words_view(words@),
            j <= 4,
            spec_piece_upto(view, colors@, line as int, j as int) == Ok::<Piece, NotationError>(
                piece,
            ),
        decreases words.len() - j,
    {
        let word = words[j];
        assert(view[j as int] == word@);
        match edge_from_word(word, colors, line) {
            Err(e) => {
                proof {
                    lemma_piece_error_stays(view, colors@, line as int, j as int + 1);
                }
                return Err(e);
            },
            Ok(value) => {
                if j >= 4 {
                    proof {
                        lemma_piece_error_stays(view, colors@, line as int, j as int + 1);
                    }
                    return Err(NotationError::TooManyEdges);
                }
                let shift: u32 = 8 * (j as u32);
                piece = piece | (value << shift);
            },
        }
        j += 1;
    }
    Ok(piece)
}

/// Once the words of a line have failed, more words change nothing.
proof fn lemma_piece_error_stays(words: Seq<Seq<char>>, colors: Seq<char>, line: int, n: int)
    requires
        0 <= n <= words.len(),
        spec_piece_upto(words, colors, line, n) is Err,
    ensures
        spec_piece(words, colors, line) == spec_piece_upto(words, colors, line, n),
    decreases words.len() - n,
{
    if n < words.len() {
        lemma_piece_error_stays(words, colors, line, n + 1);
    }
}

/// Once the lines of a text have failed, more lines change nothing.
proof fn lemma_pieces_error_stays(table: Seq<Seq<Seq<char>>>, colors: Seq<char>, n: int, m: int)
    requires
        0 <= n <= m,
        spec_pieces_upto(table, colors, n) is Err,
    ensures
        spec_pieces_upto(table, colors, m) == spec_pieces_upto(table, colors, n),
    decreases m - n,
{
    if n < m {
        lemma_pieces_error_stays(table, colors, n, m - 1);
    }
}

/// Reads a puzzle off the words of its lines: the colours off the first
/// line, one piece off each further line.
pub fn puzzle_from_words(table: &Vec<Vec<&str>>) -> (result: Result<Puzzle, NotationError>)
    ensures
        is_puzzle(result, spec_puzzle(table_view(table@))),
{
    let ghost view = table_view(table@);
    if table.len() == 0 {
        return Err(NotationError::NoColors);
    }
    assert(view[0] == words_view(table@[0]@));
    let colors = match color_tags(&table[0]) {
        Err(e) => {
            return Err(e);
        },
        Ok(colors) => colors,
    };
    let mut pieces: PieceList = [0;9];
    let mut i: usize = 0;
    let last = table.len() - 1;
    while i < last
        invariant
            i <= last,
            last == table.len() - 1,
            view == table_view(table@),
            spec_color_tags(view[0]) == Ok::<Seq<char>, NotationError>(colors@),
            i <= 9,
            spec_pieces_upto(view, colors@, i as int) == Ok::<PieceList, NotationError>(pieces),
        decreases last - i,
    {
        assert(view[i as int + 1] == words_view(table@[i as int + 1]@));
        match piece_from_words(&table[i + 1], &colors, i) {
            Err(e) => {
                proof {
                    lemma_pieces_error_stays(view, colors@, i as int + 1, last as int);
                }
                return Err(e);
            },
            Ok(piece) => {
                if i >= 9 {
                    proof {
                        lemma_pieces_error_stays(view, colors@, i as int + 1, last as int);
                    }
                    return Err(NotationError::TooManyPieces);
                }
                let ghost before = pieces;
                pieces[i] = piece;
                assert(pieces =~= vstd::array::spec_array_update(before, i as int, piece));
            },
        }
        i += 1;
    }
    Ok(Puzzle { colors, pieces })
}

/// The colours that the first line of a text names, given the words of
/// its lines.
pub open spec fn spec_colors(table: Seq<Seq<Seq<char>>>) -> Result<Seq<char>, NotationError> {
    if table.len() == 0 {
        Err(NotationError::NoColors)
    } else {
        spec_color_tags(table[0])
    }
}

/// Reads the colours off the first line of a text.
pub fn parse_colors(text: &str) -> (result: Result<Vec<char>, NotationError>)
    ensures
        match result {
            Ok(colors) => spec_colors(spec_table(text@)) == Ok::<Seq<char>, NotationError>(colors@),
            Err(e) => spec_colors(spec_table(text@)) == Err::<Seq<char>, NotationError>(e),
        },
{
    let lines = lines_of(text);
    if lines.len() == 0 {
        return Err(NotationError::NoColors);
    }
    let line = lines[0];
    assert(words_view(lines@)[0] == line@);
    let words = words_of(line);
    color_tags(&words)
}

/// Reads a puzzle off its text.
pub fn parse_puzzle(text: &str) -> (result: Result<Puzzle, NotationError>)
    ensures
        is_puzzle(result, spec_puzzle(spec_table(text@))),
{
    let lines = lines_of(text);
    let mut table: Vec<Vec<&str>> = Vec::new();
    let mut i: usize = 0;
    while i < lines.len()
        invariant
            i <= lines.len(),
            words_view(lines@) == spec_lines(text@),
            table@.len() == i,
            forall|k: int|
                0 <= k < i ==> words_view((#[trigger] table@[k])@) == spec_words(
                    spec_lines(text@)[k],
                ),
        decreases lines.len() - i,
    {
        let line = lines[i];
        assert(words_view(lines@)[i as int] == line@);
        let words = words_of(line);
        table.push(words);
        i += 1;
    }
    assert(table_view(table@) =~= spec_table(text@));
    puzzle_from_words(&table)
}

/// For the first sixteen colours the value of an edge word is the edge
/// byte that the codec gives to its colour and polarity.
pub proof fn lemma_edge_value_encoded(index: u8, head: bool)
    requires
        index < 16,
    ensures
        (((index as int) as u32) << 4) | (if head {
            1u32
        } else {
            0u32
        }) == spec_encode_edge(index, head) as u32,
{
    let wide: u32 = (index as int) as u32;
    let bit: u32 = if head {
        1u32
    } else {
        0u32
    };
    let narrow: u8 = if head {
        1u8
    } else {
        0u8
    };
    assert(((wide << 4) | bit) == (((index << 4) | narrow) as u32)) by (bit_vector)
        requires
            index < 16,
            wide == index as u32,
            (bit == 1 && narrow == 1) || (bit == 0 && narrow == 0),
    ;
}

/// Four edge words whose values fit a byte each describe the piece that
/// packs these bytes in the order of the words.
pub proof fn lemma_piece_of_four_words(
    words: Seq<Seq<char>>,
    colors: Seq<char>,
    line: int,
    e0: u8,
    e1: u8,
    e2: u8,
    e3: u8,
)
    requires
        words.len() == 4,
        spec_edge_value(words[0], colors, line) == Ok::<u32, NotationError>(e0 as u32),
        spec_edge_value(words[1], colors, line) == Ok::<u32, NotationError>(e1 as u32),
        spec_edge_value(words[2], colors, line) == Ok::<u32, NotationError>(e2 as u32),
        spec_edge_value(words[3], colors, line) == Ok::<u32, NotationError>(e3 as u32),
    ensures
        spec_piece(words, colors, line) == Ok::<Piece, NotationError>(spec_pack(e0, e1, e2, e3)),
{
    reveal_with_fuel(spec_piece_upto, 5);
    let v0 = e0 as u32;
    let v1 = e1 as u32;
    let v2 = e2 as u32;
    let v3 = e3 as u32;
    assert(((((0u32 | (v0 << 0u32)) | (v1 << 8u32)) | (v2 << 16u32)) | (v3 << 24u32)) == (v0 | (v1
        << 8) | (v2 << 16) | (v3 << 24))) by (bit_vector);
}

} // verus!
