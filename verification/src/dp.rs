//! The Direction Pointer (DP), the main traversal direction register.
//!
//! The DP starts out pointing right and rotates clockwise through
//! Right, Down, Left, Up.

use vstd::prelude::*;

verus! {

/// Direction Pointer: Right, Down, Left or Up, ordered clockwise.
#[derive(Hash, PartialEq, Eq, Clone, Copy, Debug, Structural)]
pub enum DP {
    Right,
    Down,
    Left,
    Up,
}

impl DP {
    /// Clockwise position of the direction: Right 0, Down 1, Left 2, Up 3.
    pub open spec fn index_spec(self) -> int {
        match self {
            DP::Right => 0,
            DP::Down => 1,
            DP::Left => 2,
            DP::Up => 3,
        }
    }

    /// The direction at clockwise position `i`, for `i` in `0..4`.
    pub open spec fn from_index_spec(i: int) -> DP {
        if i == 0 {
            DP::Right
        } else if i == 1 {
            DP::Down
        } else if i == 2 {
            DP::Left
        } else {
            DP::Up
        }
    }

    /// The direction reached from `self` by `n` clockwise steps, where `n`
    /// may be any integer (negative steps rotate anticlockwise).
    pub open spec fn rotate_spec(self, n: int) -> DP {
        DP::from_index_spec((self.index_spec() + n) % 4)
    }

    /// The row and column displacement of one step in this direction:
    /// Right (0, 1), Down (1, 0), Left (0, -1), Up (-1, 0).
    pub open spec fn displacement_spec(self) -> (int, int) {
        match self {
            DP::Right => (0, 1),
            DP::Down => (1, 0),
            DP::Left => (0, -1),
            DP::Up => (-1, 0),
        }
    }

    /// Clockwise position of the direction.
    fn index(&self) -> (r: usize)
        ensures
            r == self.index_spec(),
    {
        match self {
            DP::Right => 0,
            DP::Down => 1,
            DP::Left => 2,
            DP::Up => 3,
        }
    }

    /// The direction at clockwise position `i`.
    fn from_index(i: usize) -> (r: DP)
        requires
            i < 4,
        ensures
            r == DP::from_index_spec(i as int),
    {
        if i == 0 {
            DP::Right
        } else if i == 1 {
            DP::Down
        } else if i == 2 {
            DP::Left
        } else {
            DP::Up
        }
    }

    /// One clockwise step.
    pub fn turn_right(&self) -> (r: DP)
        ensures
            r == self.rotate_spec(1),
    {
        self.rotate_clockwise_by(1)
    }

    /// Rotates clockwise by `i` steps; a negative `i` rotates anticlockwise,
    /// so rotating by -1 equals rotating by 3.
    pub fn rotate_clockwise_by(&self, i: isize) -> (r: DP)
        ensures
            r == self.rotate_spec(i as int),
    {
        let idx = self.index();
        // Reduce `i` to an equivalent number of steps in 0..4 without signed
        // remainder: for negative `i`, work on the magnitude of `i + 1`.
        let m: usize = if i >= 0 {
            (i as usize) % 4
        } else {
            let k = (-(i + 1)) as usize;
            3 - k % 4
        };
        let r = Self::from_index((idx + m) % 4);
        proof {
            let ii = i as int;
            if ii >= 0 {
                assert(m == ii % 4) by {
                    vstd::arithmetic::div_mod::lemma_fundamental_div_mod(ii, 4);
                };
                vstd::arithmetic::div_mod::lemma_mod_multiples_vanish(ii / 4, idx + m, 4);
                assert(4 * (ii / 4) + (idx + m) == idx + ii) by {
                    vstd::arithmetic::div_mod::lemma_fundamental_div_mod(ii, 4);
                };
            } else {
                let k = (-(ii + 1)) as int;
                assert(m == 3 - k % 4);
                // idx + ii differs from idx + m by a multiple of 4:
                // ii = -(k + 1) and m = 3 - k % 4, so ii - m = -4 * (k / 4) - 4.
                vstd::arithmetic::div_mod::lemma_fundamental_div_mod(k, 4);
                assert(ii == -(k + 1));
                assert(ii - m == -4 * (k / 4) - 4);
                vstd::arithmetic::div_mod::lemma_mod_multiples_vanish(
                    -(k / 4) - 1,
                    idx + m,
                    4,
                );
                assert(4 * (-(k / 4) - 1) + (idx + m) == idx + ii);
            }
            assert((idx + m) % 4 == (idx + ii) % 4);
            assert(((idx + m) as usize % 4) as int == (idx + m) % 4);
        }
        r
    }

    /// The index displacement of one straight step in the direction of the DP.
    pub fn get_displacement(&self) -> (r: (isize, isize))
        ensures
            (r.0 as int, r.1 as int) == self.displacement_spec(),
    {
        match self {
            DP::Right => (0, 1),
            DP::Down => (1, 0),
            DP::Left => (0, -1),
            DP::Up => (-1, 0),
        }
    }
}

} // verus!
