//! The palette and colour algebra.
//!
//! A codel is one of twenty colours: six hues at three lightness levels, plus
//! white and black. Each colour has a fixed RGB value, and the hue and
//! lightness distances between two chromatic codels name the command executed
//! on a block transition.

use vstd::prelude::*;

use crate::image::Pixel;

verus! {

/// Codel (LightRed, Green, White, etc.)
#[derive(Clone, Copy, Debug, PartialEq, Eq, Hash, Structural)]
pub enum Codel {
    LightRed,
    LightYellow,
    LightGreen,
    LightCyan,
    LightBlue,
    LightMagenta,
    Red,
    Yellow,
    Green,
    Cyan,
    Blue,
    Magenta,
    DarkRed,
    DarkYellow,
    DarkGreen,
    DarkCyan,
    DarkBlue,
    DarkMagenta,
    White,
    Black,
}

impl Codel {
    /// True of the eighteen coloured codels; false of white and black, which
    /// carry no hue or lightness.
    pub open spec fn is_chromatic(self) -> bool {
        self != Codel::White && self != Codel::Black
    }

    /// Hue index: Red 0, Yellow 1, Green 2, Cyan 3, Blue 4, Magenta 5.
    /// Meaningful only for chromatic codels.
    pub open spec fn hue_spec(self) -> int {
        match self {
            Codel::LightRed | Codel::Red | Codel::DarkRed => 0,
            Codel::LightYellow | Codel::Yellow | Codel::DarkYellow => 1,
            Codel::LightGreen | Codel::Green | Codel::DarkGreen => 2,
            Codel::LightCyan | Codel::Cyan | Codel::DarkCyan => 3,
            Codel::LightBlue | Codel::Blue | Codel::DarkBlue => 4,
            Codel::LightMagenta | Codel::Magenta | Codel::DarkMagenta => 5,
            _ => 0,
        }
    }

    /// Lightness index: Light 0, Normal 1, Dark 2.
    /// Meaningful only for chromatic codels.
    pub open spec fn lightness_spec(self) -> int {
        match self {
            Codel::LightRed
            | Codel::LightYellow
            | Codel::LightGreen
            | Codel::LightCyan
            | Codel::LightBlue
            | Codel::LightMagenta => 0,
            Codel::Red
            | Codel::Yellow
            | Codel::Green
            | Codel::Cyan
            | Codel::Blue
            | Codel::Magenta => 1,
            Codel::DarkRed
            | Codel::DarkYellow
            | Codel::DarkGreen
            | Codel::DarkCyan
            | Codel::DarkBlue
            | Codel::DarkMagenta => 2,
            _ => 0,
        }
    }

    /// The fixed RGB value of this codel.
    pub open spec fn rgb_spec(self) -> Pixel {
        match self {
            Codel::LightRed => Pixel { r: 255, g: 192, b: 192 },
            Codel::LightYellow => Pixel { r: 255, g: 255, b: 192 },
            Codel::LightGreen => Pixel { r: 192, g: 255, b: 192 },
            Codel::LightCyan => Pixel { r: 192, g: 255, b: 255 },
            Codel::LightBlue => Pixel { r: 192, g: 192, b: 255 },
            Codel::LightMagenta => Pixel { r: 255, g: 192, b: 255 },
            Codel::Red => Pixel { r: 255, g: 0, b: 0 },
            Codel::Yellow => Pixel { r: 255, g: 255, b: 0 },
            Codel::Green => Pixel { r: 0, g: 255, b: 0 },
            Codel::Cyan => Pixel { r: 0, g: 255, b: 255 },
            Codel::Blue => Pixel { r: 0, g: 0, b: 255 },
            Codel::Magenta => Pixel { r: 255, g: 0, b: 255 },
            Codel::DarkRed => Pixel { r: 192, g: 0, b: 0 },
            Codel::DarkYellow => Pixel { r: 192, g: 192, b: 0 },
            Codel::DarkGreen => Pixel { r: 0, g: 192, b: 0 },
            Codel::DarkCyan => Pixel { r: 0, g: 192, b: 192 },
            Codel::DarkBlue => Pixel { r: 0, g: 0, b: 192 },
            Codel::DarkMagenta => Pixel { r: 192, g: 0, b: 192 },
            Codel::White => Pixel { r: 255, g: 255, b: 255 },
            Codel::Black => Pixel { r: 0, g: 0, b: 0 },
        }
    }

    /// The codel whose palette entry is exactly `p`, if there is one.
    pub open spec fn codel_of_spec(p: Pixel) -> Option<Codel> {
        if p == (Pixel { r: 255, g: 192, b: 192 }) {
            Some(Codel::LightRed)
        } else if p == (Pixel { r: 255, g: 255, b: 192 }) {
            Some(Codel::LightYellow)
        } else if p == (Pixel { r: 192, g: 255, b: 192 }) {
            Some(Codel::LightGreen)
        } else if p == (Pixel { r: 192, g: 255, b: 255 }) {
            Some(Codel::LightCyan)
        } else if p == (Pixel { r: 192, g: 192, b: 255 }) {
            Some(Codel::LightBlue)
        } else if p == (Pixel { r: 255, g: 192, b: 255 }) {
            Some(Codel::LightMagenta)
        } else if p == (Pixel { r: 255, g: 0, b: 0 }) {
            Some(Codel::Red)
        } else if p == (Pixel { r: 255, g: 255, b: 0 }) {
            Some(Codel::Yellow)
        } else if p == (Pixel { r: 0, g: 255, b: 0 }) {
            Some(Codel::Green)
        } else if p == (Pixel { r: 0, g: 255, b: 255 }) {
            Some(Codel::Cyan)
        } else if p == (Pixel { r: 0, g: 0, b: 255 }) {
            Some(Codel::Blue)
        } else if p == (Pixel { r: 255, g: 0, b: 255 }) {
            Some(Codel::Magenta)
        } else if p == (Pixel { r: 192, g: 0, b: 0 }) {
            Some(Codel::DarkRed)
        } else if p == (Pixel { r: 192, g: 192, b: 0 }) {
            Some(Codel::DarkYellow)
        } else if p == (Pixel { r: 0, g: 192, b: 0 }) {
            Some(Codel::DarkGreen)
        } else if p == (Pixel { r: 0, g: 192, b: 192 }) {
            Some(Codel::DarkCyan)
        } else if p == (Pixel { r: 0, g: 0, b: 192 }) {
            Some(Codel::DarkBlue)
        } else if p == (Pixel { r: 192, g: 0, b: 192 }) {
            Some(Codel::DarkMagenta)
        } else if p == (Pixel { r: 255, g: 255, b: 255 }) {
            Some(Codel::White)
        } else if p == (Pixel { r: 0, g: 0, b: 0 }) {
            Some(Codel::Black)
        } else {
            None
        }
    }

    /// Hue distance walked clockwise from `a` to `b`, as a value in `0..6`.
    pub open spec fn hue_delta_spec(a: Codel, b: Codel) -> int {
        (b.hue_spec() - a.hue_spec()) % 6
    }

    /// Lightness distance walked darker from `a` to `b`, as a value in `0..3`.
    pub open spec fn lightness_delta_spec(a: Codel, b: Codel) -> int {
        (b.lightness_spec() - a.lightness_spec()) % 3
    }

    /// Maps a pixel onto the palette: an exact RGB match or nothing.
    pub fn new(p: &Pixel) -> (r: Option<Codel>)
        ensures
            r == Codel::codel_of_spec(*p),
    {
        if *p == (Pixel { r: 255, g: 192, b: 192 }) {
            Some(Codel::LightRed)
        } else if *p == (Pixel { r: 255, g: 255, b: 192 }) {
            Some(Codel::LightYellow)
        } else if *p == (Pixel { r: 192, g: 255, b: 192 }) {
            Some(Codel::LightGreen)
        } else if *p == (Pixel { r: 192, g: 255, b: 255 }) {
            Some(Codel::LightCyan)
        } else if *p == (Pixel { r: 192, g: 192, b: 255 }) {
            Some(Codel::LightBlue)
        } else if *p == (Pixel { r: 255, g: 192, b: 255 }) {
            Some(Codel::LightMagenta)
        } else if *p == (Pixel { r: 255, g: 0, b: 0 }) {
            Some(Codel::Red)
        } else if *p == (Pixel { r: 255, g: 255, b: 0 }) {
            Some(Codel::Yellow)
        } else if *p == (Pixel { r: 0, g: 255, b: 0 }) {
            Some(Codel::Green)
        } else if *p == (Pixel { r: 0, g: 255, b: 255 }) {
            Some(Codel::Cyan)
        } else if *p == (Pixel { r: 0, g: 0, b: 255 }) {
            Some(Codel::Blue)
        } else if *p == (Pixel { r: 255, g: 0, b: 255 }) {
            Some(Codel::Magenta)
        } else if *p == (Pixel { r: 192, g: 0, b: 0 }) {
            Some(Codel::DarkRed)
        } else if *p == (Pixel { r: 192, g: 192, b: 0 }) {
            Some(Codel::DarkYellow)
        } else if *p == (Pixel { r: 0, g: 192, b: 0 }) {
            Some(Codel::DarkGreen)
        } else if *p == (Pixel { r: 0, g: 192, b: 192 }) {
            Some(Codel::DarkCyan)
        } else if *p == (Pixel { r: 0, g: 0, b: 192 }) {
            Some(Codel::DarkBlue)
        } else if *p == (Pixel { r: 192, g: 0, b: 192 }) {
            Some(Codel::DarkMagenta)
        } else if *p == (Pixel { r: 255, g: 255, b: 255 }) {
            Some(Codel::White)
        } else if *p == (Pixel { r: 0, g: 0, b: 0 }) {
            Some(Codel::Black)
        } else {
            None
        }
    }

    /// The fixed RGB value of this codel.
    pub fn rgb(&self) -> (r: Pixel)
        ensures
            r == self.rgb_spec(),
    {
        match self {
            Codel::LightRed => Pixel { r: 255, g: 192, b: 192 },
            Codel::LightYellow => Pixel { r: 255, g: 255, b: 192 },
            Codel::LightGreen => Pixel { r: 192, g: 255, b: 192 },
            Codel::LightCyan => Pixel { r: 192, g: 255, b: 255 },
            Codel::LightBlue => Pixel { r: 192, g: 192, b: 255 },
            Codel::LightMagenta => Pixel { r: 255, g: 192, b: 255 },
            Codel::Red => Pixel { r: 255, g: 0, b: 0 },
            Codel::Yellow => Pixel { r: 255, g: 255, b: 0 },
            Codel::Green => Pixel { r: 0, g: 255, b: 0 },
            Codel::Cyan => Pixel { r: 0, g: 255, b: 255 },
            Codel::Blue => Pixel { r: 0, g: 0, b: 255 },
            Codel::Magenta => Pixel { r: 255, g: 0, b: 255 },
            Codel::DarkRed => Pixel { r: 192, g: 0, b: 0 },
            Codel::DarkYellow => Pixel { r: 192, g: 192, b: 0 },
            Codel::DarkGreen => Pixel { r: 0, g: 192, b: 0 },
            Codel::DarkCyan => Pixel { r: 0, g: 192, b: 192 },
            Codel::DarkBlue => Pixel { r: 0, g: 0, b: 192 },
            Codel::DarkMagenta => Pixel { r: 192, g: 0, b: 192 },
            Codel::White => Pixel { r: 255, g: 255, b: 255 },
            Codel::Black => Pixel { r: 0, g: 0, b: 0 },
        }
    }

    pub fn is_black(&self) -> (r: bool)
        ensures
            r == (*self == Codel::Black),
    {
        *self == Codel::Black
    }

    pub fn is_white(&self) -> (r: bool)
        ensures
            r == (*self == Codel::White),
    {
        *self == Codel::White
    }

    /// Hue index of a chromatic codel.
    fn get_hue(&self) -> (r: usize)
        requires
            self.is_chromatic(),
        ensures
            r == self.hue_spec(),
    {
        match self {
            Codel::LightRed | Codel::Red | Codel::DarkRed => 0,
            Codel::LightYellow | Codel::Yellow | Codel::DarkYellow => 1,
            Codel::LightGreen | Codel::Green | Codel::DarkGreen => 2,
            Codel::LightCyan | Codel::Cyan | Codel::DarkCyan => 3,
            Codel::LightBlue | Codel::Blue | Codel::DarkBlue => 4,
            _ => 5,
        }
    }

    /// Lightness index of a chromatic codel.
    fn get_lightness(&self) -> (r: usize)
        requires
            self.is_chromatic(),
        ensures
            r == self.lightness_spec(),
    {
        match self {
            Codel::LightRed
            | Codel::LightYellow
            | Codel::LightGreen
            | Codel::LightCyan
            | Codel::LightBlue
            | Codel::LightMagenta => 0,
            Codel::Red
            | Codel::Yellow
            | Codel::Green
            | Codel::Cyan
            | Codel::Blue
            | Codel::Magenta => 1,
            _ => 2,
        }
    }

    /// Number of clockwise steps on the hue cycle from `from` to `to`.
    pub fn get_hue_difference(from: &Codel, to: &Codel) -> (r: usize)
        requires
            from.is_chromatic(),
            to.is_chromatic(),
        ensures
            r == Codel::hue_delta_spec(*from, *to),
    {
        let f = from.get_hue();
        let t = to.get_hue();
        let r = (t + 6 - f) % 6;
        proof {
            assert((t + 6 - f) % 6 == (t - f) % 6) by {
                vstd::arithmetic::div_mod::lemma_mod_multiples_vanish(1, t - f, 6);
            };
        }
        r
    }

    /// Number of darkening steps on the lightness cycle from `from` to `to`.
    pub fn get_lightness_difference(from: &Codel, to: &Codel) -> (r: usize)
        requires
            from.is_chromatic(),
            to.is_chromatic(),
        ensures
            r == Codel::lightness_delta_spec(*from, *to),
    {
        let f = from.get_lightness();
        let t = to.get_lightness();
        let r = (t + 3 - f) % 3;
        proof {
            assert((t + 3 - f) % 3 == (t - f) % 3) by {
                vstd::arithmetic::div_mod::lemma_mod_multiples_vanish(1, t - f, 3);
            };
        }
        r
    }
}

/// The hue and lightness distances between chromatic codels stay within the
/// cycles they are taken on, and walking a hue distance forward and back
/// either stays put (equal hues) or completes the six-step cycle.
pub proof fn lemma_delta_ranges(a: Codel, b: Codel)
    requires
        a.is_chromatic(),
        b.is_chromatic(),
    ensures
        0 <= Codel::hue_delta_spec(a, b) < 6,
        0 <= Codel::lightness_delta_spec(a, b) < 3,
        Codel::hue_delta_spec(a, b) + Codel::hue_delta_spec(b, a) == if a.hue_spec()
            == b.hue_spec() {
            0int
        } else {
            6int
        },
{
    let d = b.hue_spec() - a.hue_spec();
    assert(-5 <= d <= 5);
    assert(0 <= d % 6 < 6) by {
        vstd::arithmetic::div_mod::lemma_mod_bound(d, 6);
    };
    assert(0 <= (b.lightness_spec() - a.lightness_spec()) % 3 < 3) by {
        vstd::arithmetic::div_mod::lemma_mod_bound(b.lightness_spec() - a.lightness_spec(), 3);
    };
    if d == 0 {
        assert(d % 6 == 0 && (-d) % 6 == 0);
    } else {
        assert(d % 6 + (-d) % 6 == 6) by {
            if d > 0 {
                vstd::arithmetic::div_mod::lemma_small_mod(d as nat, 6);
                vstd::arithmetic::div_mod::lemma_mod_multiples_vanish(1, -d, 6);
                vstd::arithmetic::div_mod::lemma_small_mod((6 - d) as nat, 6);
            } else {
                vstd::arithmetic::div_mod::lemma_small_mod((-d) as nat, 6);
                vstd::arithmetic::div_mod::lemma_mod_multiples_vanish(1, d, 6);
                vstd::arithmetic::div_mod::lemma_small_mod((6 + d) as nat, 6);
            }
        };
    }
}

/// Palette round trip: mapping a codel's own RGB value back through the
/// palette yields that codel.
pub proof fn lemma_palette_round_trip(c: Codel)
    ensures
        Codel::codel_of_spec(c.rgb_spec()) == Some(c),
{
}

} // verus!
