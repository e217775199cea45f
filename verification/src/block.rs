//! Colour blocks: maximal 4-connected regions of one codel, with their size
//! and the eight precomputed exit corners, one per (DP, CC) pair.
//!
//! For each Direction Pointer the block's extreme row or column in that
//! direction is selected; among the codels on that extreme the Codel Chooser
//! breaks the tie, picking the one furthest to its side relative to the
//! direction of travel.

use vstd::prelude::*;

use crate::cc::CC;
use crate::dp::DP;

verus! {

/// The exit-corner preference order for `(dp, cc)`: true when `a` is at
/// least as good a corner as `b`. The primary key is the extreme row or
/// column in the direction of `dp`; the tie-breaker follows `cc`.
pub open spec fn corner_at_least(dp: DP, cc: CC, a: (usize, usize), b: (usize, usize)) -> bool {
    match (dp, cc) {
        (DP::Right, CC::Left) => a.1 > b.1 || (a.1 == b.1 && a.0 <= b.0),
        (DP::Right, CC::Right) => a.1 > b.1 || (a.1 == b.1 && a.0 >= b.0),
        (DP::Down, CC::Left) => a.0 > b.0 || (a.0 == b.0 && a.1 >= b.1),
        (DP::Down, CC::Right) => a.0 > b.0 || (a.0 == b.0 && a.1 <= b.1),
        (DP::Left, CC::Left) => a.1 < b.1 || (a.1 == b.1 && a.0 >= b.0),
        (DP::Left, CC::Right) => a.1 < b.1 || (a.1 == b.1 && a.0 <= b.0),
        (DP::Up, CC::Left) => a.0 < b.0 || (a.0 == b.0 && a.1 <= b.1),
        (DP::Up, CC::Right) => a.0 < b.0 || (a.0 == b.0 && a.1 >= b.1),
    }
}

/// `c` is the exit corner of `cells` for `(dp, cc)`: it lies in `cells` and
/// no cell beats it in the preference order.
pub open spec fn is_corner(cells: Set<(usize, usize)>, dp: DP, cc: CC, c: (usize, usize)) -> bool {
    &&& cells.contains(c)
    &&& forall|d: (usize, usize)| #[trigger] cells.contains(d) ==> corner_at_least(dp, cc, c, d)
}

/// Colour block: a connected component of same-coloured codels.
pub struct Block {
    /// Number of codels in the block; the `Push` command pushes it.
    pub size: usize,
    pub right_left: (usize, usize),
    pub right_right: (usize, usize),
    pub down_left: (usize, usize),
    pub down_right: (usize, usize),
    pub left_left: (usize, usize),
    pub left_right: (usize, usize),
    pub up_left: (usize, usize),
    pub up_right: (usize, usize),
    pub cells: Ghost<Set<(usize, usize)>>,
}

impl Block {
    /// The set of codel coordinates the block was built from.
    pub open spec fn cells(self) -> Set<(usize, usize)> {
        self.cells@
    }

    /// The stored exit corner for `(dp, cc)`.
    pub open spec fn corner_spec(self, dp: DP, cc: CC) -> (usize, usize) {
        match (dp, cc) {
            (DP::Right, CC::Left) => self.right_left,
            (DP::Right, CC::Right) => self.right_right,
            (DP::Down, CC::Left) => self.down_left,
            (DP::Down, CC::Right) => self.down_right,
            (DP::Left, CC::Left) => self.left_left,
            (DP::Left, CC::Right) => self.left_right,
            (DP::Up, CC::Left) => self.up_left,
            (DP::Up, CC::Right) => self.up_right,
        }
    }

    /// The block's size counts its cells, it is never empty, and each of the
    /// eight stored corners is the exit corner its (DP, CC) pair asks for.
    pub open spec fn wf(self) -> bool {
        &&& self.cells().finite()
        &&& self.size == self.cells().len()
        &&& self.size > 0
        &&& forall|dp: DP, cc: CC| is_corner(self.cells(), dp, cc, #[trigger] self.corner_spec(dp, cc))
    }

    /// Creates a new block from the list of the codels in the same connected
    /// component.
    pub fn new(s: &Vec<(usize, usize)>) -> (r: Block)
        requires
            s@.len() > 0,
            s@.no_duplicates(),
        ensures
            r.wf(),
            r.size == s@.len(),
            r.cells() == s@.to_set(),
    {
        let b = Block {
            size: s.len(),
            right_left: find_corner(s, &DP::Right, &CC::Left),
            right_right: find_corner(s, &DP::Right, &CC::Right),
            down_left: find_corner(s, &DP::Down, &CC::Left),
            down_right: find_corner(s, &DP::Down, &CC::Right),
            left_left: find_corner(s, &DP::Left, &CC::Left),
            left_right: find_corner(s, &DP::Left, &CC::Right),
            up_left: find_corner(s, &DP::Up, &CC::Left),
            up_right: find_corner(s, &DP::Up, &CC::Right),
            cells: Ghost(s@.to_set()),
        };
        proof {
            broadcast use vstd::seq_lib::seq_to_set_is_finite;

            s@.unique_seq_to_set();
            assert forall|dp: DP, cc: CC|
                is_corner(b.cells(), dp, cc, #[trigger] b.corner_spec(dp, cc)) by {
                match (dp, cc) {
                    (DP::Right, CC::Left) => assert(b.corner_spec(dp, cc) == b.right_left),
                    (DP::Right, CC::Right) => assert(b.corner_spec(dp, cc) == b.right_right),
                    (DP::Down, CC::Left) => assert(b.corner_spec(dp, cc) == b.down_left),
                    (DP::Down, CC::Right) => assert(b.corner_spec(dp, cc) == b.down_right),
                    (DP::Left, CC::Left) => assert(b.corner_spec(dp, cc) == b.left_left),
                    (DP::Left, CC::Right) => assert(b.corner_spec(dp, cc) == b.left_right),
                    (DP::Up, CC::Left) => assert(b.corner_spec(dp, cc) == b.up_left),
                    (DP::Up, CC::Right) => assert(b.corner_spec(dp, cc) == b.up_right),
                }
            }
        }
        b
    }

    /// The exit corner for the given Direction Pointer and Codel Chooser.
    pub fn get_corner_index(&self, dp: &DP, cc: &CC) -> (r: (usize, usize))
        ensures
            r == self.corner_spec(*dp, *cc),
    {
        match (dp, cc) {
            (DP::Right, CC::Left) => self.right_left,
            (DP::Right, CC::Right) => self.right_right,
            (DP::Down, CC::Left) => self.down_left,
            (DP::Down, CC::Right) => self.down_right,
            (DP::Left, CC::Left) => self.left_left,
            (DP::Left, CC::Right) => self.left_right,
            (DP::Up, CC::Left) => self.up_left,
            (DP::Up, CC::Right) => self.up_right,
        }
    }
}

/// Every exit corner of a well-formed block lies inside that block.
pub proof fn lemma_corner_in_block(b: Block, dp: DP, cc: CC)
    requires
        b.wf(),
    ensures
        b.cells().contains(b.corner_spec(dp, cc)),
{
}

/// The preference order is total and transitive, so a single scan finds the
/// corner.
proof fn lemma_corner_order(dp: DP, cc: CC, a: (usize, usize), b: (usize, usize), c: (
    usize,
    usize,
))
    ensures
        corner_at_least(dp, cc, a, b) || corner_at_least(dp, cc, b, a),
        corner_at_least(dp, cc, a, b) && corner_at_least(dp, cc, b, c) ==> corner_at_least(
            dp,
            cc,
            a,
            c,
        ),
{
}

/// Scans the cells for the exit corner under the `(dp, cc)` preference order.
fn find_corner(s: &Vec<(usize, usize)>, dp: &DP, cc: &CC) -> (r: (usize, usize))
    requires
        s@.len() > 0,
    ensures
        is_corner(s@.to_set(), *dp, *cc, r),
{
    let mut best = s[0];
    let mut i: usize = 1;
    while i < s.len()
        invariant
            1 <= i <= s@.len(),
            s@.to_set().contains(best),
            forall|j: int| 0 <= j < i ==> corner_at_least(*dp, *cc, best, #[trigger] s@[j]),
        decreases s@.len() - i,
    {
        let cand = s[i];
        if !at_least(dp, cc, best, cand) {
            proof {
                lemma_corner_order(*dp, *cc, cand, best, best);
                assert forall|j: int| 0 <= j < i + 1 implies corner_at_least(
                    *dp,
                    *cc,
                    cand,
                    #[trigger] s@[j],
                ) by {
                    if j < i {
                        lemma_corner_order(*dp, *cc, cand, best, s@[j]);
                    } else {
                        lemma_corner_order(*dp, *cc, cand, cand, cand);
                    }
                }
            }
            best = cand;
        }
        i = i + 1;
    }
    proof {
        assert forall|d: (usize, usize)| #[trigger]
            s@.to_set().contains(d) implies corner_at_least(*dp, *cc, best, d) by {
            let j = choose|j: int| 0 <= j < s@.len() && s@[j] == d;
            assert(corner_at_least(*dp, *cc, best, s@[j]));
        }
    }
    best
}

/// True when `a` is at least as good a corner as `b` for `(dp, cc)`.
fn at_least(dp: &DP, cc: &CC, a: (usize, usize), b: (usize, usize)) -> (r: bool)
    ensures
        r == corner_at_least(*dp, *cc, a, b),
{
    match (dp, cc) {
        (DP::Right, CC::Left) => a.1 > b.1 || (a.1 == b.1 && a.0 <= b.0),
        (DP::Right, CC::Right) => a.1 > b.1 || (a.1 == b.1 && a.0 >= b.0),
        (DP::Down, CC::Left) => a.0 > b.0 || (a.0 == b.0 && a.1 >= b.1),
        (DP::Down, CC::Right) => a.0 > b.0 || (a.0 == b.0 && a.1 <= b.1),
        (DP::Left, CC::Left) => a.1 < b.1 || (a.1 == b.1 && a.0 >= b.0),
        (DP::Left, CC::Right) => a.1 < b.1 || (a.1 == b.1 && a.0 <= b.0),
        (DP::Up, CC::Left) => a.0 < b.0 || (a.0 == b.0 && a.1 <= b.1),
        (DP::Up, CC::Right) => a.0 < b.0 || (a.0 == b.0 && a.1 >= b.1),
    }
}

} // verus!
