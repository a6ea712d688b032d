//! The piece codec: four edge bytes packed into one 32-bit word.
//!
//! Edge positions run clockwise from the top: 0 = top, 1 = right,
//! 2 = bottom, 3 = left.  The edge at position `i` occupies byte `i` of the
//! word, least significant byte first.  Within an edge byte, bit 0 is the
//! polarity (0 = tail, 1 = head) and the remaining bits are the colour.

use vstd::prelude::*;

verus! {

/// One piece: four edge bytes, position 0 in the least significant byte.
pub type Piece = u32;

/// The nine pieces of a puzzle, indexed 0 to 8.
pub type PieceList = [Piece; 9];

/// Edge position of the top side.
pub const TOP: u8 = 0;

/// Edge position of the right side.
pub const RIGHT: u8 = 1;

/// Edge position of the bottom side.
pub const BOTTOM: u8 = 2;

/// Edge position of the left side.
pub const LEFT: u8 = 3;

/// How far the colour index is shifted up inside an edge byte.  The bits
/// between the polarity bit and the colour index stay zero.
pub const COLOR_SHIFT: u32 = 4;

/// The polarity of an edge byte: `true` for head, `false` for tail.
pub open spec fn spec_is_head(e: u8) -> bool {
    e & 1 == 1
}

/// Everything in an edge byte but its polarity bit.
pub open spec fn spec_color_field(e: u8) -> u8 {
    e >> 1
}

/// The colour index stored in an edge byte.
pub open spec fn spec_color(e: u8) -> u8 {
    e >> 4
}

/// The edge byte for colour index `color` and the given polarity.
pub open spec fn spec_encode_edge(color: u8, head: bool) -> u8 {
    (color << 4) | (if head { 1u8 } else { 0u8 })
}

/// The matching rule: two touching edges fit if they show the same colour
/// and opposite polarities.
pub open spec fn spec_mates(a: u8, b: u8) -> bool {
    spec_color_field(a) == spec_color_field(b) && spec_is_head(a) != spec_is_head(b)
}

/// The edge byte of `piece` at `position`.
pub open spec fn spec_edge(piece: Piece, position: int) -> u8 {
    ((piece >> ((8 * position) as u32)) & 0xff) as u8
}

/// The piece whose edges at positions 0, 1, 2, 3 are `e0`, `e1`, `e2`, `e3`.
pub open spec fn spec_pack(e0: u8, e1: u8, e2: u8, e3: u8) -> Piece {
    (e0 as u32) | ((e1 as u32) << 8) | ((e2 as u32) << 16) | ((e3 as u32) << 24)
}

/// `piece` turned by `turns` quarter turns: the edge that was at position
/// `i` is found at position `(i + turns) mod 4` afterwards.
pub open spec fn spec_rotate(piece: Piece, turns: int) -> Piece {
    spec_pack(
        spec_edge(piece, (0 - turns) % 4),
        spec_edge(piece, (1 - turns) % 4),
        spec_edge(piece, (2 - turns) % 4),
        spec_edge(piece, (3 - turns) % 4),
    )
}

/// Packing the four edges of a piece gives the piece back.
pub proof fn lemma_pack_edges(piece: Piece)
    ensures
        spec_pack(
            spec_edge(piece, 0),
            spec_edge(piece, 1),
            spec_edge(piece, 2),
            spec_edge(piece, 3),
        ) == piece,
{
    assert(((((piece >> 0u32) & 0xff) as u8) as u32) | (((((piece >> 8u32) & 0xff) as u8) as u32)
        << 8) | (((((piece >> 16u32) & 0xff) as u8) as u32) << 16) | (((((piece >> 24u32)
        & 0xff) as u8) as u32) << 24) == piece) by (bit_vector);
}

/// Each edge of a packed piece is the byte that was packed at its position.
pub proof fn lemma_edge_of_pack(e0: u8, e1: u8, e2: u8, e3: u8)
    ensures
        spec_edge(spec_pack(e0, e1, e2, e3), 0) == e0,
        spec_edge(spec_pack(e0, e1, e2, e3), 1) == e1,
        spec_edge(spec_pack(e0, e1, e2, e3), 2) == e2,
        spec_edge(spec_pack(e0, e1, e2, e3), 3) == e3,
{
    let p = spec_pack(e0, e1, e2, e3);
    assert(p == (e0 as u32) | ((e1 as u32) << 8) | ((e2 as u32) << 16) | ((e3 as u32) << 24));
    assert(((p >> 0u32) & 0xff) as u8 == e0 && ((p >> 8u32) & 0xff) as u8 == e1 && ((p >> 16u32)
        & 0xff) as u8 == e2 && ((p >> 24u32) & 0xff) as u8 == e3) by (bit_vector)
        requires
            p == (e0 as u32) | ((e1 as u32) << 8) | ((e2 as u32) << 16) | ((e3 as u32) << 24),
    ;
}

/// After a rotation by `turns`, position `position` shows the edge that
/// was at position `(position - turns) mod 4` before.
pub proof fn lemma_edge_of_rotated(piece: Piece, turns: int, position: int)
    requires
        0 <= position < 4,
    ensures
        spec_edge(spec_rotate(piece, turns), position) == spec_edge(
            piece,
            (position - turns) % 4,
        ),
{
    lemma_edge_of_pack(
        spec_edge(piece, (0 - turns) % 4),
        spec_edge(piece, (1 - turns) % 4),
        spec_edge(piece, (2 - turns) % 4),
        spec_edge(piece, (3 - turns) % 4),
    );
}

/// Two pieces with the same four edges are the same piece.
pub proof fn lemma_piece_by_edges(a: Piece, b: Piece)
    requires
        forall|position: int| 0 <= position < 4 ==> spec_edge(a, position) == spec_edge(b, position),
    ensures
        a == b,
{
    lemma_pack_edges(a);
    lemma_pack_edges(b);
}

/// Rotations compose by adding their quarter turns modulo four, and a
/// rotation by zero turns changes nothing.
pub proof fn lemma_rotation_group(piece: Piece, a: int, b: int)
    requires
        0 <= a < 4,
        0 <= b < 4,
    ensures
        spec_rotate(spec_rotate(piece, a), b) == spec_rotate(piece, (a + b) % 4),
        spec_rotate(piece, 0) == piece,
{
    let twice = spec_rotate(spec_rotate(piece, a), b);
    let once = spec_rotate(piece, (a + b) % 4);
    assert forall|position: int| 0 <= position < 4 implies spec_edge(twice, position)
        == spec_edge(once, position) by {
        lemma_edge_of_rotated(spec_rotate(piece, a), b, position);
        lemma_edge_of_rotated(piece, a, (position - b) % 4);
        lemma_edge_of_rotated(piece, (a + b) % 4, position);
        assert(((position - b) % 4 - a) % 4 == (position - (a + b) % 4) % 4);
    }
    lemma_piece_by_edges(twice, once);
    lemma_pack_edges(piece);
}

/// Turns `piece` by `orientation` quarter turns: every edge byte moves
/// `orientation` positions towards the high end of the word and the bytes
/// pushed out at the top come back in at the bottom.
pub fn rotate(piece: Piece, orientation: u8) -> (rotated: Piece)
    requires
        orientation < 4,
    ensures
        rotated == spec_rotate(piece, orientation as int),
{
    let n: u32 = 8 * (orientation as u32);
    let back: u32 = (32 - n) % 32;
    proof {
        lemma_rotate_bits(piece, orientation);
    }
    piece << n | piece >> back
}

proof fn lemma_rotate_bits(piece: Piece, orientation: u8)
    requires
        orientation < 4,
    ensures
        (piece << (8 * (orientation as u32)) as u32) | (piece >> (((32 - 8 * (orientation as u32))
            % 32) as u32)) == spec_rotate(piece, orientation as int),
{
    if orientation == 0 {
        assert((piece << 0u32) | (piece >> 0u32) == piece) by (bit_vector);
        lemma_pack_edges(piece);
    } else if orientation == 1 {
        assert((piece << 8u32) | (piece >> 24u32) == ((((piece >> 24u32) & 0xff) as u8) as u32) | (
        ((((piece >> 0u32) & 0xff) as u8) as u32) << 8) | (((((piece >> 8u32) & 0xff) as u8) as u32)
            << 16) | (((((piece >> 16u32) & 0xff) as u8) as u32) << 24)) by (bit_vector);
    } else if orientation == 2 {
        assert((piece << 16u32) | (piece >> 16u32) == ((((piece >> 16u32) & 0xff) as u8) as u32) | (
        ((((piece >> 24u32) & 0xff) as u8) as u32) << 8) | (((((piece >> 0u32) & 0xff) as u8) as u32)
            << 16) | (((((piece >> 8u32) & 0xff) as u8) as u32) << 24)) by (bit_vector);
    } else {
        assert((piece << 24u32) | (piece >> 8u32) == ((((piece >> 8u32) & 0xff) as u8) as u32) | (
        ((((piece >> 16u32) & 0xff) as u8) as u32) << 8) | (((((piece >> 24u32) & 0xff) as u8) as u32)
            << 16) | (((((piece >> 0u32) & 0xff) as u8) as u32) << 24)) by (bit_vector);
    }
}

/// The edge byte (colour and polarity) that `piece` shows at `position`.
pub fn edge(piece: Piece, position: u8) -> (e: u8)
    requires
        position < 4,
    ensures
        e == spec_edge(piece, position as int),
{
    let shift: u32 = 8 * (position as u32);
    let byte: u32 = (piece >> shift) & 0xff;
    assert(byte <= 0xff) by (bit_vector)
        requires
            byte == (piece >> shift) & 0xff,
    ;
    byte as u8
}

/// Packs four edge bytes, given in the order top, right, bottom, left,
/// into a piece.
pub fn pack(edges: [u8; 4]) -> (piece: Piece)
    ensures
        piece == spec_pack(edges[0], edges[1], edges[2], edges[3]),
{
    (edges[0] as u32) | ((edges[1] as u32) << 8) | ((edges[2] as u32) << 16) | ((edges[3] as u32)
        << 24)
}

/// Encodes one edge: the colour index above `COLOR_SHIFT`, the polarity
/// in bit 0.
pub fn encode_edge(color: u8, head: bool) -> (e: u8)
    requires
        color < 16,
    ensures
        e == spec_encode_edge(color, head),
        spec_color(e) == color,
        spec_is_head(e) == head,
{
    let mask: u8 = if head {
        1
    } else {
        0
    };
    proof {
        lemma_encode_decode(color, head);
    }
    (color << COLOR_SHIFT) | mask
}

/// The colour index of an edge byte.
pub fn edge_color(e: u8) -> (color: u8)
    ensures
        color == spec_color(e),
{
    e >> COLOR_SHIFT
}

/// Whether an edge byte shows a head (`true`) or a tail (`false`).
pub fn edge_is_head(e: u8) -> (head: bool)
    ensures
        head == spec_is_head(e),
{
    e & 1 == 1
}

/// Whether two touching edges fit: same colour, opposite polarity.
pub fn mates(a: u8, b: u8) -> (fit: bool)
    ensures
        fit == spec_mates(a, b),
{
    proof {
        assert(((a ^ 1) == b) <==> ((a >> 1) == (b >> 1) && ((a & 1 == 1) != (b & 1 == 1))))
            by (bit_vector);
    }
    (a ^ 1) == b
}

/// Decoding an encoded edge gives the colour index and the polarity back.
pub proof fn lemma_encode_decode(color: u8, head: bool)
    requires
        color < 16,
    ensures
        spec_color(spec_encode_edge(color, head)) == color,
        spec_is_head(spec_encode_edge(color, head)) == head,
{
    let bit: u8 = if head {
        1u8
    } else {
        0u8
    };
    assert((((color << 4) | bit) >> 4) == color && ((((color << 4) | bit) & 1) == 1 <==> bit == 1))
        by (bit_vector)
        requires
            color < 16,
            bit == 0 || bit == 1,
    ;
}

/// Two encoded edges fit exactly if their colour indices are equal and
/// their polarities differ.
pub proof fn lemma_mates_encoded(c1: u8, h1: bool, c2: u8, h2: bool)
    requires
        c1 < 16,
        c2 < 16,
    ensures
        spec_mates(spec_encode_edge(c1, h1), spec_encode_edge(c2, h2)) <==> (c1 == c2 && h1 != h2),
{
    let b1: u8 = if h1 {
        1u8
    } else {
        0u8
    };
    let b2: u8 = if h2 {
        1u8
    } else {
        0u8
    };
    assert(((((c1 << 4) | b1) >> 1) == (((c2 << 4) | b2) >> 1) && (((((c1 << 4) | b1) & 1) == 1)
        != ((((c2 << 4) | b2) & 1) == 1))) <==> (c1 == c2 && b1 != b2)) by (bit_vector)
        requires
            c1 < 16,
            c2 < 16,
            b1 == 0 || b1 == 1,
            b2 == 0 || b2 == 1,
    ;
}

/// An edge never fits itself, and fitting is symmetric.
pub proof fn lemma_mates_symmetric(a: u8, b: u8)
    ensures
        spec_mates(a, b) == spec_mates(b, a),
        !spec_mates(a, a),
{
}

} // verus!
