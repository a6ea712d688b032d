//! The order in which the search meets board states.
//!
//! A state extends another if it keeps all that the other has placed.  Of
//! two states that part ways in some cell, the one with the higher piece
//! there (or, for one piece, the higher orientation) is met first.

use crate::board::{lemma_same_cells, State};
use vstd::prelude::*;

verus! {

impl State {
    /// `self` holds everything that `base` has placed, and maybe more.
    pub open spec fn extends(self, base: State) -> bool {
        base.frontier() <= self.frontier() && self.agrees_below(base, base.frontier())
    }

    /// `self` holds everything that `base` has placed, and more.
    pub open spec fn strictly_extends(self, base: State) -> bool {
        self.extends(base) && base.frontier() < self.frontier()
    }

    /// The two boards agree before cell `k`, both have cell `k` filled,
    /// and `self` holds the lower content there.
    pub open spec fn parts_below_at(self, other: State, k: int) -> bool {
        &&& 0 <= k < self.frontier()
        &&& k < other.frontier()
        &&& self.agrees_below(other, k)
        &&& self.cell_rank(k) < other.cell_rank(k)
    }

    /// In the first cell in which the two boards differ, both are filled
    /// and `self` holds the lower content.  The search then meets `other`
    /// and everything that extends it before it meets `self`.
    pub open spec fn below(self, other: State) -> bool {
        exists|k: int| self.parts_below_at(other, k)
    }
}

/// Extending a board keeps what all its extensions agree on.
pub proof fn lemma_extends_transitive(a: State, b: State, c: State)
    requires
        a.extends(b),
        b.extends(c),
    ensures
        a.extends(c),
{
}

/// A complete board has one extension only: itself.
pub proof fn lemma_extends_complete(t: State, s: State)
    requires
        t.extends(s),
        s.complete(),
    ensures
        t == s,
{
    lemma_same_cells(t, s);
}

/// Where two boards rank, so do all their extensions.
pub proof fn lemma_below_extended(a: State, b: State, a2: State, b2: State)
    requires
        a.below(b),
        a2.extends(a),
        b2.extends(b),
    ensures
        a2.below(b2),
{
    let k = choose|k: int| a.parts_below_at(b, k);
    assert(a2.parts_below_at(b2, k));
}

/// No board is below itself, and no two boards are below each other.
pub proof fn lemma_below_asymmetric(a: State, b: State)
    requires
        a.below(b),
    ensures
        !b.below(a),
        a != b,
{
    let k = choose|k: int| a.parts_below_at(b, k);
    if b.below(a) {
        let j = choose|j: int| b.parts_below_at(a, j);
        if j < k {
            assert(a.cell_rank(j) == b.cell_rank(j));
        } else if k < j {
            assert(a.cell_rank(k) == b.cell_rank(k));
        }
    }
}

/// A board that is below another neither extends it nor is extended by it.
pub proof fn lemma_below_excludes_extends(a: State, b: State)
    requires
        a.below(b),
    ensures
        !a.extends(b),
        !b.extends(a),
{
    let k = choose|k: int| a.parts_below_at(b, k);
    if a.extends(b) {
        assert(a.cell_rank(k) == b.cell_rank(k));
    }
    if b.extends(a) {
        assert(a.cell_rank(k) == b.cell_rank(k));
    }
}

} // verus!
