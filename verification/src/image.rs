//! The codel grid: codel-size detection, downsampling, palette mapping, and
//! the block index built by flood fill.

use vstd::prelude::*;

use crate::block::Block;
use crate::cc::CC;
use crate::codel::Codel;
use crate::dp::DP;

verus! {

/// One pixel of the source raster: three 8-bit channels.
#[derive(PartialEq, Eq, Structural, Clone, Copy, Debug)]
pub struct Pixel {
    pub r: u8,
    pub g: u8,
    pub b: u8,
}

impl Pixel {
    pub fn new(r: u8, g: u8, b: u8) -> (p: Pixel)
        ensures
            p == (Pixel { r, g, b }),
    {
        Pixel { r, g, b }
    }
}

/// A grid stored as a vector of rows, all of width `w`.
pub open spec fn rect_of<T>(m: Seq<Vec<T>>, h: int, w: int) -> bool {
    &&& m.len() == h
    &&& forall|i: int| 0 <= i < h ==> (#[trigger] m[i])@.len() == w
}

/// `c` and `d` are 4-neighbours: they share a row or column and sit one
/// step apart.
pub open spec fn adjacent(c: (usize, usize), d: (usize, usize)) -> bool {
    ||| (c.0 == d.0 && (c.1 + 1 == d.1 || d.1 + 1 == c.1))
    ||| (c.1 == d.1 && (c.0 + 1 == d.0 || d.0 + 1 == c.0))
}

/// `p` is a path on the `h` by `w` grid `m`: nonempty, within bounds, all
/// of one colour, each step to a 4-neighbour.
pub open spec fn color_path(m: Seq<Vec<Codel>>, h: int, w: int, p: Seq<(usize, usize)>) -> bool {
    &&& p.len() > 0
    &&& forall|n: int| 0 <= n < p.len() ==> (#[trigger] p[n]).0 < h && p[n].1 < w
    &&& forall|n: int|
        0 <= n < p.len() ==> m[(#[trigger] p[n]).0 as int]@[p[n].1 as int] == m[p[0].0 as int]@[
            p[0].1 as int]
    &&& forall|n: int| 0 <= n < p.len() - 1 ==> adjacent(#[trigger] p[n], p[n + 1])
}

/// Some same-coloured 4-connected path joins `a` to `b`.
pub open spec fn grid_connected(
    m: Seq<Vec<Codel>>,
    h: int,
    w: int,
    a: (usize, usize),
    b: (usize, usize),
) -> bool {
    exists|p: Seq<(usize, usize)>|
        #[trigger] color_path(m, h, w, p) && p.first() == a && p.last() == b
}

/// Every in-grid cell is joined to itself.
proof fn lemma_connected_self(m: Seq<Vec<Codel>>, h: int, w: int, a: (usize, usize))
    requires
        a.0 < h,
        a.1 < w,
    ensures
        grid_connected(m, h, w, a, a),
{
    let p = seq![a];
    assert(color_path(m, h, w, p));
    assert(p.first() == a && p.last() == a);
}

/// A path extends by one same-coloured neighbour of its end.
proof fn lemma_connected_step(
    m: Seq<Vec<Codel>>,
    h: int,
    w: int,
    a: (usize, usize),
    b: (usize, usize),
    d: (usize, usize),
)
    requires
        grid_connected(m, h, w, a, b),
        d.0 < h,
        d.1 < w,
        adjacent(b, d),
        m[d.0 as int]@[d.1 as int] == m[a.0 as int]@[a.1 as int],
    ensures
        grid_connected(m, h, w, a, d),
{
    let p = choose|p: Seq<(usize, usize)>|
        #[trigger] color_path(m, h, w, p) && p.first() == a && p.last() == b;
    let p2 = p.push(d);
    assert(color_path(m, h, w, p2)) by {
        assert(forall|n: int| 0 <= n < p.len() ==> p2[n] == #[trigger] p[n]);
        assert(p2[p.len() as int] == d);
        assert(p2[0] == p[0]);
        assert(adjacent(p2[p2.len() - 2], p2[p2.len() - 1]));
    };
    assert(p2.first() == a && p2.last() == d);
}

/// Connection runs both ways: the reversed path serves.
proof fn lemma_connected_sym(m: Seq<Vec<Codel>>, h: int, w: int, a: (usize, usize), b: (
    usize,
    usize,
))
    requires
        grid_connected(m, h, w, a, b),
    ensures
        grid_connected(m, h, w, b, a),
{
    let p = choose|p: Seq<(usize, usize)>|
        #[trigger] color_path(m, h, w, p) && p.first() == a && p.last() == b;
    let r = Seq::new(p.len(), |n: int| p[p.len() - 1 - n]);
    assert(color_path(m, h, w, r)) by {
        assert(r[0] == b);
        assert(m[b.0 as int]@[b.1 as int] == m[a.0 as int]@[a.1 as int]);
        assert forall|n: int| 0 <= n < r.len() - 1 implies adjacent(#[trigger] r[n], r[n + 1]) by {
            assert(r[n] == p[p.len() - 1 - n]);
            assert(r[n + 1] == p[p.len() - 2 - n]);
            assert(adjacent(p[p.len() - 2 - n], p[p.len() - 1 - n]));
        }
    };
    assert(r.first() == b && r.last() == a);
}

/// Connections compose end to end.
proof fn lemma_connected_trans(
    m: Seq<Vec<Codel>>,
    h: int,
    w: int,
    a: (usize, usize),
    b: (usize, usize),
    c: (usize, usize),
)
    requires
        grid_connected(m, h, w, a, b),
        grid_connected(m, h, w, b, c),
    ensures
        grid_connected(m, h, w, a, c),
{
    let p1 = choose|p: Seq<(usize, usize)>|
        #[trigger] color_path(m, h, w, p) && p.first() == a && p.last() == b;
    let p2 = choose|p: Seq<(usize, usize)>|
        #[trigger] color_path(m, h, w, p) && p.first() == b && p.last() == c;
    if p2.len() == 1 {
        assert(b == c);
    } else {
        let g = p1 + p2.subrange(1, p2.len() as int);
        assert(color_path(m, h, w, g)) by {
            assert(forall|n: int| 0 <= n < p1.len() ==> g[n] == #[trigger] p1[n]);
            assert(forall|n: int|
                p1.len() <= n < g.len() ==> g[n] == #[trigger] p2[n - p1.len() + 1]);
            assert(g[0] == a);
            assert(m[b.0 as int]@[b.1 as int] == m[a.0 as int]@[a.1 as int]);
            assert forall|n: int| 0 <= n < g.len() implies m[(#[trigger] g[n]).0 as int]@[
            g[n].1 as int] == m[g[0].0 as int]@[g[0].1 as int] by {
                if n >= p1.len() {
                    assert(g[n] == p2[n - p1.len() + 1]);
                    assert(m[p2[n - p1.len() + 1].0 as int]@[p2[n - p1.len() + 1].1 as int]
                        == m[p2[0].0 as int]@[p2[0].1 as int]);
                }
            }
            assert forall|n: int| 0 <= n < g.len() - 1 implies adjacent(
                #[trigger] g[n],
                g[n + 1],
            ) by {
                if n < p1.len() - 1 {
                    assert(adjacent(p1[n], p1[n + 1]));
                } else if n == p1.len() - 1 {
                    assert(g[n] == p1.last() && g[n + 1] == p2[1]);
                    assert(adjacent(p2[0], p2[1]));
                } else {
                    assert(g[n] == p2[n - p1.len() + 1] && g[n + 1] == p2[n - p1.len() + 2]);
                    assert(adjacent(p2[n - p1.len() + 1], p2[n - p1.len() + 2]));
                }
            }
        };
        assert(g.first() == a && g.last() == c);
    }
}

/// The largest number of codels a grid may hold, so that a block size always
/// fits on the stack.
pub open spec fn grid_cap() -> int {
    isize::MAX as int
}

/// All pixels of the `(i, j)` tile of side `s` match its top-left pixel.
pub open spec fn tile_uniform(pm: Seq<Vec<Pixel>>, s: int, i: int, j: int) -> bool {
    forall|x: int, y: int|
        i * s <= x < (i + 1) * s && j * s <= y < (j + 1) * s ==> (#[trigger] pm[x]@[y]) == pm[i
            * s]@[j * s]
}

/// `s` is a workable codel size: it divides both pixel dimensions and every
/// `s` by `s` tile is a single colour.
pub open spec fn codel_size_ok(pm: Seq<Vec<Pixel>>, s: int) -> bool {
    &&& 1 <= s
    &&& (pm.len() as int) % s == 0
    &&& (pm[0]@.len() as int) % s == 0
    &&& forall|i: int, j: int|
        0 <= i < (pm.len() as int) / s && 0 <= j < (pm[0]@.len() as int) / s ==> #[trigger] tile_uniform(pm, s, i, j)
}

/// The largest workable codel size.
pub open spec fn best_codel_size(pm: Seq<Vec<Pixel>>) -> int {
    choose|s: int|
        codel_size_ok(pm, s) && (forall|t: int| s < t ==> !#[trigger] codel_size_ok(pm, t))
}

/// The codel size an image preparation run uses: the caller's, or else the
/// largest workable one.
pub open spec fn used_codel_size(pm: Seq<Vec<Pixel>>, codel_size: Option<usize>) -> int {
    match codel_size {
        Some(s) => s as int,
        None => best_codel_size(pm),
    }
}

/// The codel of grid cell `(i, j)` when downsampling at size `s`: the palette
/// entry of the cell's top-left pixel, or the fallback colour outside the
/// palette, or nothing.
pub open spec fn codel_at_spec(
    pm: Seq<Vec<Pixel>>,
    s: int,
    default_color: Option<Codel>,
    i: int,
    j: int,
) -> Option<Codel> {
    match Codel::codel_of_spec(pm[i * s]@[j * s]) {
        Some(c) => Some(c),
        None => default_color,
    }
}

/// Every cell of the downsampled grid gets a codel.
pub open spec fn all_colors_ok(
    pm: Seq<Vec<Pixel>>,
    s: int,
    default_color: Option<Codel>,
    h: int,
    w: int,
) -> bool {
    forall|i: int, j: int|
        0 <= i < h && 0 <= j < w ==> (#[trigger] codel_at_spec(pm, s, default_color, i, j))
            is Some
}

/// `(a, b)` comes strictly before `(i, j)` in row-major order.
pub open spec fn row_major_before(a: int, b: int, i: int, j: int) -> bool {
    a < i || (a == i && b < j)
}

/// Why preparing an image failed.
#[derive(PartialEq, Eq, Structural, Clone, Copy, Debug)]
pub enum PrepError {
    /// The caller-supplied codel size does not fit the pixel grid.
    InvalidCodelSize,
    /// The grid cell at this coordinate has a colour outside the palette and
    /// no fallback was given.
    InvalidColorAt(usize, usize),
}

/// The number of true entries of a row.
pub open spec fn count_row(s: Seq<bool>) -> int
    decreases s.len(),
{
    if s.len() == 0 {
        0
    } else {
        count_row(s.drop_last()) + if s.last() {
            1int
        } else {
            0int
        }
    }
}

/// The number of true entries of a grid of rows.
pub open spec fn count_grid(m: Seq<Vec<bool>>) -> int
    decreases m.len(),
{
    if m.len() == 0 {
        0
    } else {
        count_grid(m.drop_last()) + count_row(m.last()@)
    }
}

proof fn lemma_count_row_le(s: Seq<bool>)
    ensures
        0 <= count_row(s) <= s.len(),
    decreases s.len(),
{
    if s.len() > 0 {
        lemma_count_row_le(s.drop_last());
    }
}

proof fn lemma_count_row_update(s: Seq<bool>, i: int)
    requires
        0 <= i < s.len(),
        !s[i],
    ensures
        count_row(s.update(i, true)) == count_row(s) + 1,
    decreases s.len(),
{
    if i == s.len() - 1 {
        assert(s.update(i, true).drop_last() =~= s.drop_last());
    } else {
        assert(s.update(i, true).drop_last() =~= s.drop_last().update(i, true));
        lemma_count_row_update(s.drop_last(), i);
    }
}

proof fn lemma_count_grid_le(m: Seq<Vec<bool>>, w: int)
    requires
        w >= 0,
        forall|i: int| 0 <= i < m.len() ==> (#[trigger] m[i])@.len() == w,
    ensures
        0 <= count_grid(m) <= m.len() * w,
    decreases m.len(),
{
    if m.len() == 0 {
    } else {
        lemma_count_grid_le(m.drop_last(), w);
        lemma_count_row_le(m.last()@);
        assert((m.len() - 1) * w + w == m.len() * w) by (nonlinear_arith);
    }
}

proof fn lemma_count_grid_update(m: Seq<Vec<bool>>, i: int, row: Vec<bool>, k: int)
    requires
        0 <= i < m.len(),
        0 <= k < m[i]@.len(),
        !m[i]@[k],
        row@ == m[i]@.update(k, true),
    ensures
        count_grid(m.update(i, row)) == count_grid(m) + 1,
    decreases m.len(),
{
    lemma_count_row_update(m[i]@, k);
    if i == m.len() - 1 {
        assert(m.update(i, row).drop_last() =~= m.drop_last());
        assert(m.update(i, row).last() == row);
    } else {
        assert(m.update(i, row).drop_last() =~= m.drop_last().update(i, row));
        assert(m.update(i, row).last() == m.last());
        lemma_count_grid_update(m.drop_last(), i, row, k);
    }
}

/// The codel grid of a prepared image, with its block index.
pub struct Image {
    m: Vec<Vec<Codel>>,
    height: usize,
    width: usize,
    blocks: Vec<Block>,
    block_map: Vec<Vec<usize>>,
}

impl Image {
    /// Height of the codel grid.
    pub closed spec fn height_spec(self) -> usize {
        self.height
    }

    /// Width of the codel grid.
    pub closed spec fn width_spec(self) -> usize {
        self.width
    }

    /// The codel at a grid coordinate.
    pub closed spec fn codel_spec(self, pos: (usize, usize)) -> Codel {
        self.m@[pos.0 as int]@[pos.1 as int]
    }

    /// The block owning a grid coordinate.
    pub closed spec fn block_spec(self, pos: (usize, usize)) -> Block {
        self.blocks@[self.block_map@[pos.0 as int]@[pos.1 as int] as int]
    }

    /// `pos` lies on the codel grid.
    pub open spec fn in_bounds(self, pos: (usize, usize)) -> bool {
        pos.0 < self.height_spec() && pos.1 < self.width_spec()
    }

    /// The grid is rectangular and nonempty; every coordinate is indexed to
    /// a well-formed block that contains it; each block holds cells of one
    /// colour, owns all of them in the index, and is closed under
    /// same-coloured adjacency (so it is a maximal region); and block sizes
    /// stay within the stack's integer range.
    pub closed spec fn wf(self) -> bool {
        &&& self.height > 0 && self.width > 0
        &&& (self.height as int) * (self.width as int) <= grid_cap()
        &&& rect_of(self.m@, self.height as int, self.width as int)
        &&& rect_of(self.block_map@, self.height as int, self.width as int)
        &&& forall|i: int, j: int|
            0 <= i < self.height && 0 <= j < self.width ==> (#[trigger] self.block_map@[i]@[j])
                < self.blocks@.len()
        &&& forall|k: int| 0 <= k < self.blocks@.len() ==> (#[trigger] self.blocks@[k]).wf()
        &&& forall|k: int|
            0 <= k < self.blocks@.len() ==> (#[trigger] self.blocks@[k]).size as int <= (
            self.height as int) * (self.width as int)
        &&& forall|k: int, c: (usize, usize)|
            0 <= k < self.blocks@.len() && #[trigger] self.blocks@[k].cells().contains(c) ==> c.0
                < self.height && c.1 < self.width
        &&& forall|i: int, j: int|
            0 <= i < self.height && 0 <= j < self.width
                ==> #[trigger] self.blocks@[self.block_map@[i]@[j] as int].cells().contains(
                (i as usize, j as usize),
            )
        &&& forall|k: int, c: (usize, usize)|
            0 <= k < self.blocks@.len() && #[trigger] self.blocks@[k].cells().contains(c)
                ==> self.block_map@[c.0 as int]@[c.1 as int] == k
        &&& forall|k: int, c: (usize, usize), d: (usize, usize)|
            #![trigger self.blocks@[k].cells().contains(c), self.blocks@[k].cells().contains(d)]
            0 <= k < self.blocks@.len() && self.blocks@[k].cells().contains(c)
                && self.blocks@[k].cells().contains(d) ==> self.m@[c.0 as int]@[c.1 as int]
                == self.m@[d.0 as int]@[d.1 as int] && grid_connected(
                self.m@,
                self.height as int,
                self.width as int,
                c,
                d,
            )
        &&& forall|k: int, c: (usize, usize), d: (usize, usize)|
            #![trigger self.blocks@[k].cells().contains(c), adjacent(c, d)]
            0 <= k < self.blocks@.len() && self.blocks@[k].cells().contains(c) && d.0
                < self.height && d.1 < self.width && adjacent(c, d) && self.m@[d.0 as int]@[
                d.1 as int] == self.m@[c.0 as int]@[c.1 as int] ==> self.blocks@[
                k].cells().contains(d)
    }

    /// Height of the codel grid.
    pub(crate) fn height(&self) -> (r: usize)
        ensures
            r == self.height_spec(),
    {
        self.height
    }

    /// Width of the codel grid.
    pub(crate) fn width(&self) -> (r: usize)
        ensures
            r == self.width_spec(),
    {
        self.width
    }

    /// Prepares an image: validates or detects the codel size, downsamples
    /// the pixel grid, maps it through the palette with the optional
    /// fallback colour, and builds the block index.
    #[verifier::loop_isolation(false)]
    pub fn new(
        pixel_map: &Vec<Vec<Pixel>>,
        codel_size: Option<usize>,
        default_color: Option<Codel>,
    ) -> (r: Result<Image, PrepError>)
        requires
            pixel_map@.len() > 0,
            pixel_map@[0]@.len() > 0,
            rect_of(pixel_map@, pixel_map@.len() as int, pixel_map@[0]@.len() as int),
            pixel_map@.len() * pixel_map@[0]@.len() <= grid_cap(),
        ensures
            (r matches Err(PrepError::InvalidCodelSize)) <==> (codel_size matches Some(s)
                && !codel_size_ok(pixel_map@, s as int)),
            ({
                let s = used_codel_size(pixel_map@, codel_size);
                let h = pixel_map@.len() as int / s;
                let w = pixel_map@[0]@.len() as int / s;
                &&& ((r matches Ok(img)) <==> (codel_size matches Some(s0) ==> codel_size_ok(
                    pixel_map@,
                    s0 as int,
                )) && all_colors_ok(pixel_map@, s, default_color, h, w))
                &&& (r matches Err(PrepError::InvalidColorAt(a, b)) ==> {
                    &&& 0 <= a < h && 0 <= b < w
                    &&& codel_at_spec(pixel_map@, s, default_color, a as int, b as int) is None
                    &&& forall|a2: int, b2: int|
                        0 <= a2 < h && 0 <= b2 < w && row_major_before(a2, b2, a as int, b as int)
                            ==> (#[trigger] codel_at_spec(
                            pixel_map@,
                            s,
                            default_color,
                            a2,
                            b2,
                        )) is Some
                })
                &&& (r matches Ok(img) ==> {
                    &&& img.wf()
                    &&& codel_size_ok(pixel_map@, s)
                    &&& img.height_spec() == h
                    &&& img.width_spec() == w
                    &&& forall|i: int, j: int|
                        0 <= i < h && 0 <= j < w ==> Some(
                            img.codel_spec((i as usize, j as usize)),
                        ) == #[trigger] codel_at_spec(pixel_map@, s, default_color, i, j)
                })
            }),
    {
        let ph = pixel_map.len();
        let pw = pixel_map[0].len();
        let s = match codel_size {
            Some(s0) => {
                if s0 == 0 {
                    return Err(PrepError::InvalidCodelSize);
                }
                if !Image::check_if_codel_size_is_valid(pixel_map, s0) {
                    return Err(PrepError::InvalidCodelSize);
                }
                s0
            },
            None => {
                match Image::detect_codel_size(pixel_map) {
                    Some(s0) => {
                        proof {
                            lemma_best_size_unique(pixel_map@, s0 as int);
                        }
                        s0
                    },
                    None => {
                        // A codel size of one is always workable, so
                        // detection cannot fail.
                        proof {
                            assert(false);
                        }
                        return Err(PrepError::InvalidCodelSize);
                    },
                }
            },
        };
        proof {
            lemma_divisor_bounds(ph as int, s as int);
            lemma_divisor_bounds(pw as int, s as int);
        }
        let h = ph / s;
        let w = pw / s;
        proof {
            assert((h as int) * (w as int) <= ph * pw) by (nonlinear_arith)
                requires
                    h as int == ph as int / s as int,
                    w as int == pw as int / s as int,
                    s >= 1,
                    ph as int == (s as int) * (h as int),
                    pw as int == (s as int) * (w as int),
                    h >= 1,
                    w >= 1,
            ;
        }
        let mut m: Vec<Vec<Codel>> = Vec::new();
        let mut i: usize = 0;
        while i < h
            invariant
                i <= h,
                m@.len() == i,
                forall|a: int| 0 <= a < i ==> (#[trigger] m@[a])@.len() == w,
                forall|a: int, b: int|
                    0 <= a < i && 0 <= b < w ==> Some(m@[a]@[b]) == #[trigger] codel_at_spec(
                        pixel_map@,
                        s as int,
                        default_color,
                        a,
                        b,
                    ),
            decreases h - i,
        {
            let mut row: Vec<Codel> = Vec::new();
            let mut j: usize = 0;
            while j < w
                invariant
                    j <= w,
                    row@.len() == j,
                    forall|b: int|
                        0 <= b < j ==> Some(row@[b]) == #[trigger] codel_at_spec(
                            pixel_map@,
                            s as int,
                            default_color,
                            i as int,
                            b,
                        ),
                decreases w - j,
            {
                proof {
                    assert((i as int) * (s as int) + (s as int) <= ph as int
                        && (j as int) * (s as int) + (s as int) <= pw as int) by (nonlinear_arith)
                        requires
                            0 <= i < h,
                            0 <= j < w,
                            s >= 1,
                            ph as int == (s as int) * (h as int),
                            pw as int == (s as int) * (w as int),
                    ;
                }
                let px = pixel_map[i * s][j * s];
                let c = match Codel::new(&px) {
                    Some(c) => Some(c),
                    None => default_color,
                };
                match c {
                    Some(c) => row.push(c),
                    None => {
                        return Err(PrepError::InvalidColorAt(i, j));
                    },
                }
                j = j + 1;
            }
            m.push(row);
            i = i + 1;
        }
        let (blocks, block_map) = Image::create_block_map(&m, h, w);
        let img = Image { m, height: h, width: w, blocks, block_map };
        Ok(img)
    }

    /// True when `codel_size` divides both pixel dimensions and every tile
    /// holds one colour.
    #[verifier::loop_isolation(false)]
    fn check_if_codel_size_is_valid(pixel_map: &Vec<Vec<Pixel>>, codel_size: usize) -> (r: bool)
        requires
            codel_size >= 1,
            pixel_map@.len() > 0,
            pixel_map@[0]@.len() > 0,
            rect_of(pixel_map@, pixel_map@.len() as int, pixel_map@[0]@.len() as int),
        ensures
            r == codel_size_ok(pixel_map@, codel_size as int),
    {
        let ph = pixel_map.len();
        let pw = pixel_map[0].len();
        if ph % codel_size != 0 || pw % codel_size != 0 {
            return false;
        }
        proof {
            lemma_divisor_bounds(ph as int, codel_size as int);
            lemma_divisor_bounds(pw as int, codel_size as int);
        }
        let h = ph / codel_size;
        let w = pw / codel_size;
        let mut i: usize = 0;
        while i < h
            invariant
                i <= h,
                codel_size >= 1,
                pixel_map@.len() == ph > 0,
                pixel_map@[0]@.len() == pw > 0,
                rect_of(pixel_map@, ph as int, pw as int),
                ph as int == (codel_size as int) * (h as int),
                pw as int == (codel_size as int) * (w as int),
                h as int == ph as int / codel_size as int,
                w as int == pw as int / codel_size as int,
                forall|a: int, b: int|
                    0 <= a < i && 0 <= b < w ==> #[trigger] tile_uniform(
                        pixel_map@,
                        codel_size as int,
                        a,
                        b,
                    ),
            decreases h - i,
        {
            let mut j: usize = 0;
            while j < w
                invariant
                    i < h,
                    j <= w,
                    codel_size >= 1,
                    pixel_map@.len() == ph > 0,
                    pixel_map@[0]@.len() == pw > 0,
                    rect_of(pixel_map@, ph as int, pw as int),
                    ph as int == (codel_size as int) * (h as int),
                    pw as int == (codel_size as int) * (w as int),
                    forall|a: int, b: int|
                        0 <= a < i && 0 <= b < w ==> #[trigger] tile_uniform(
                            pixel_map@,
                            codel_size as int,
                            a,
                            b,
                        ),
                    forall|b: int|
                        0 <= b < j ==> #[trigger] tile_uniform(
                            pixel_map@,
                            codel_size as int,
                            i as int,
                            b,
                        ),
                decreases w - j,
            {
                if !tile_is_uniform(pixel_map, codel_size, i, j, h, w) {
                    return false;
                }
                j = j + 1;
            }
            i = i + 1;
        }
        true
    }

    /// Automatically detects the codel size. As the codel size is generally
    /// not unique, the largest workable one is returned, and one is always
    /// workable.
    #[verifier::loop_isolation(false)]
    fn detect_codel_size(pixel_map: &Vec<Vec<Pixel>>) -> (r: Option<usize>)
        requires
            pixel_map@.len() > 0,
            pixel_map@[0]@.len() > 0,
            rect_of(pixel_map@, pixel_map@.len() as int, pixel_map@[0]@.len() as int),
        ensures
            r is Some,
            (r matches Some(s) ==> codel_size_ok(pixel_map@, s as int) && forall|t: int|
                (s as int) < t ==> !#[trigger] codel_size_ok(pixel_map@, t)),
    {
        let ph = pixel_map.len();
        let pw = pixel_map[0].len();
        let mut cand: usize = if ph < pw {
            ph
        } else {
            pw
        };
        proof {
            assert forall|t: int| (cand as int) < t implies !#[trigger] codel_size_ok(
                pixel_map@,
                t,
            ) by {
                if codel_size_ok(pixel_map@, t) {
                    if t > ph as int {
                        vstd::arithmetic::div_mod::lemma_small_mod(ph as nat, t as nat);
                    } else {
                        vstd::arithmetic::div_mod::lemma_small_mod(pw as nat, t as nat);
                    }
                }
            }
        }
        while cand >= 2
            invariant
                1 <= cand,
                pixel_map@.len() == ph > 0,
                pixel_map@[0]@.len() == pw > 0,
                rect_of(pixel_map@, ph as int, pw as int),
                forall|t: int| (cand as int) < t ==> !#[trigger] codel_size_ok(pixel_map@, t),
            decreases cand,
        {
            if ph % cand == 0 && pw % cand == 0 {
                if Image::check_if_codel_size_is_valid(pixel_map, cand) {
                    return Some(cand);
                }
            }
            cand = cand - 1;
        }
        proof {
            lemma_size_one_ok(pixel_map@);
        }
        let ok1 = Image::check_if_codel_size_is_valid(pixel_map, 1);
        if ok1 {
            Some(1)
        } else {
            // A codel size of one always passes the check.
            proof {
                assert(false);
            }
            None
        }
    }

    /// Builds the block index of a codel grid: flood-fills each component,
    /// builds its block, and points every cell of the component at it.
    #[verifier::loop_isolation(false)]
    fn create_block_map(m: &Vec<Vec<Codel>>, h: usize, w: usize) -> (r: (
        Vec<Block>,
        Vec<Vec<usize>>,
    ))
        requires
            h > 0,
            w > 0,
            (h as int) * (w as int) <= grid_cap(),
            rect_of(m@, h as int, w as int),
        ensures
            rect_of(r.1@, h as int, w as int),
            forall|i: int, j: int|
                0 <= i < h && 0 <= j < w ==> (#[trigger] r.1@[i]@[j]) < r.0@.len(),
            forall|k: int| 0 <= k < r.0@.len() ==> (#[trigger] r.0@[k]).wf(),
            forall|k: int|
                0 <= k < r.0@.len() ==> (#[trigger] r.0@[k]).size as int <= (h as int) * (
                w as int),
            forall|k: int, c: (usize, usize)|
                0 <= k < r.0@.len() && #[trigger] r.0@[k].cells().contains(c) ==> c.0 < h && c.1
                    < w,
            forall|i: int, j: int|
                0 <= i < h && 0 <= j < w ==> #[trigger] r.0@[r.1@[i]@[j] as int].cells().contains(
                    (i as usize, j as usize),
                ),
            forall|k: int, c: (usize, usize)|
                0 <= k < r.0@.len() && #[trigger] r.0@[k].cells().contains(c) ==> r.1@[
                    c.0 as int]@[c.1 as int] == k,
            forall|k: int, c: (usize, usize), d: (usize, usize)|
                #![trigger r.0@[k].cells().contains(c), r.0@[k].cells().contains(d)]
                0 <= k < r.0@.len() && r.0@[k].cells().contains(c) && r.0@[k].cells().contains(
                    d,
                ) ==> m@[c.0 as int]@[c.1 as int] == m@[d.0 as int]@[d.1 as int]
                    && grid_connected(m@, h as int, w as int, c, d),
            forall|k: int, c: (usize, usize), d: (usize, usize)|
                #![trigger r.0@[k].cells().contains(c), adjacent(c, d)]
                0 <= k < r.0@.len() && r.0@[k].cells().contains(c) && d.0 < h && d.1 < w
                    && adjacent(c, d) && m@[d.0 as int]@[d.1 as int] == m@[c.0 as int]@[
                    c.1 as int] ==> r.0@[k].cells().contains(d),
    {
        let mut visited: Vec<Vec<bool>> = Vec::new();
        let mut block_map: Vec<Vec<usize>> = Vec::new();
        let mut i0: usize = 0;
        while i0 < h
            invariant
                i0 <= h,
                visited@.len() == i0,
                block_map@.len() == i0,
                forall|a: int| 0 <= a < i0 ==> (#[trigger] visited@[a])@.len() == w,
                forall|a: int| 0 <= a < i0 ==> (#[trigger] block_map@[a])@.len() == w,
                forall|a: int, b: int| 0 <= a < i0 && 0 <= b < w ==> !(#[trigger] visited@[a]@[b]),
            decreases h - i0,
        {
            let row_v = make_bool_row(w);
            let row_b = make_zero_row(w);
            visited.push(row_v);
            block_map.push(row_b);
            i0 = i0 + 1;
        }
        proof {
            lemma_count_grid_false(visited@, w as int);
        }
        let mut blocks: Vec<Block> = Vec::new();
        let mut i: usize = 0;
        while i < h
            invariant
                i <= h,
                h > 0,
                w > 0,
                (h as int) * (w as int) <= grid_cap(),
                rect_of(m@, h as int, w as int),
                rect_of(visited@, h as int, w as int),
                rect_of(block_map@, h as int, w as int),
                count_grid(visited@) >= 0,
                forall|k: int| 0 <= k < blocks@.len() ==> (#[trigger] blocks@[k]).wf(),
                forall|k: int|
                    0 <= k < blocks@.len() ==> (#[trigger] blocks@[k]).size as int <= count_grid(
                        visited@,
                    ),
                forall|k: int, c: (usize, usize)|
                    0 <= k < blocks@.len() && #[trigger] blocks@[k].cells().contains(c) ==> c.0
                        < h && c.1 < w,
                forall|a: int, b: int|
                    0 <= a < h && 0 <= b < w && #[trigger] visited@[a]@[b] ==> block_map@[a]@[b]
                        < blocks@.len() && blocks@[block_map@[a]@[b] as int].cells().contains(
                        (a as usize, b as usize),
                    ),
                forall|k: int, c: (usize, usize)|
                    0 <= k < blocks@.len() && #[trigger] blocks@[k].cells().contains(c)
                        ==> visited@[c.0 as int]@[c.1 as int] && block_map@[c.0 as int]@[
                        c.1 as int] == k,
                forall|k: int, c: (usize, usize), d: (usize, usize)|
                    #![trigger blocks@[k].cells().contains(c), blocks@[k].cells().contains(d)]
                    0 <= k < blocks@.len() && blocks@[k].cells().contains(c)
                        && blocks@[k].cells().contains(d) ==> m@[c.0 as int]@[c.1 as int]
                        == m@[d.0 as int]@[d.1 as int] && grid_connected(
                        m@,
                        h as int,
                        w as int,
                        c,
                        d,
                    ),
                forall|k: int, c: (usize, usize), d: (usize, usize)|
                    #![trigger blocks@[k].cells().contains(c), adjacent(c, d)]
                    0 <= k < blocks@.len() && blocks@[k].cells().contains(c) && d.0 < h && d.1
                        < w && adjacent(c, d) && m@[d.0 as int]@[d.1 as int] == m@[c.0 as int]@[
                        c.1 as int] ==> blocks@[k].cells().contains(d),
                forall|a: int, b: int|
                    0 <= a < i && 0 <= b < w ==> #[trigger] visited@[a]@[b],
            decreases h - i,
        {
            let mut j: usize = 0;
            while j < w
                invariant
                    i < h,
                    j <= w,
                    h > 0,
                    w > 0,
                    (h as int) * (w as int) <= grid_cap(),
                    rect_of(m@, h as int, w as int),
                    rect_of(visited@, h as int, w as int),
                    rect_of(block_map@, h as int, w as int),
                    count_grid(visited@) >= 0,
                    forall|k: int| 0 <= k < blocks@.len() ==> (#[trigger] blocks@[k]).wf(),
                    forall|k: int|
                        0 <= k < blocks@.len() ==> (#[trigger] blocks@[k]).size as int
                            <= count_grid(visited@),
                    forall|k: int, c: (usize, usize)|
                        0 <= k < blocks@.len() && #[trigger] blocks@[k].cells().contains(c)
                            ==> c.0 < h && c.1 < w,
                    forall|a: int, b: int|
                        0 <= a < h && 0 <= b < w && #[trigger] visited@[a]@[b]
                            ==> block_map@[a]@[b] < blocks@.len()
                            && blocks@[block_map@[a]@[b] as int].cells().contains(
                            (a as usize, b as usize),
                        ),
                    forall|k: int, c: (usize, usize)|
                        0 <= k < blocks@.len() && #[trigger] blocks@[k].cells().contains(c)
                            ==> visited@[c.0 as int]@[c.1 as int] && block_map@[c.0 as int]@[
                            c.1 as int] == k,
                    forall|k: int, c: (usize, usize), d: (usize, usize)|
                        #![trigger blocks@[k].cells().contains(c), blocks@[k].cells().contains(d)]
                        0 <= k < blocks@.len() && blocks@[k].cells().contains(c)
                            && blocks@[k].cells().contains(d) ==> m@[c.0 as int]@[c.1 as int]
                            == m@[d.0 as int]@[d.1 as int] && grid_connected(
                            m@,
                            h as int,
                            w as int,
                            c,
                            d,
                        ),
                    forall|k: int, c: (usize, usize), d: (usize, usize)|
                        #![trigger blocks@[k].cells().contains(c), adjacent(c, d)]
                        0 <= k < blocks@.len() && blocks@[k].cells().contains(c) && d.0 < h && d.1
                            < w && adjacent(c, d) && m@[d.0 as int]@[d.1 as int] == m@[c.0 as int]@[
                            c.1 as int] ==> blocks@[k].cells().contains(d),
                    forall|a: int, b: int|
                        0 <= a < h && 0 <= b < w && row_major_before(a, b, i as int, j as int)
                            ==> #[trigger] visited@[a]@[b],
                decreases w - j,
            {
                if !get_flag(&visited, i, j) {
                    let color = m[i][j];
                    let ghost count0 = count_grid(visited@);
                    let ghost vis_pre = visited@;
                    let ghost blocks_pre = blocks@;
                    let cells = Image::dfs((i, j), &color, m, &mut visited, h, w);
                    proof {
                        lemma_count_grid_le(visited@, w as int);
                        assert forall|c: (usize, usize)| #[trigger]
                            cells@.to_set().contains(c) implies c.0 < h && c.1 < w by {
                            let n = choose|n: int|
                                0 <= n < cells@.len() && cells@[n] == c;
                            assert(cells@[n].0 < h && cells@[n].1 < w);
                        }
                    }
                    let block = Block::new(&cells);
                    let bid = blocks.len();
                    blocks.push(block);
                    let ghost bm0 = block_map@;
                    let ghost vis1 = visited@;
                    let mut k: usize = 0;
                    while k < cells.len()
                        invariant
                            k <= cells@.len(),
                            rect_of(block_map@, h as int, w as int),
                            forall|n: int|
                                0 <= n < cells@.len() ==> (#[trigger] cells@[n]).0 < h
                                    && cells@[n].1 < w,
                            bid < blocks@.len(),
                            forall|n: int|
                                0 <= n < k ==> block_map@[(#[trigger] cells@[n]).0 as int]@[
                                    cells@[n].1 as int] == bid,
                            forall|a: int, b: int|
                                0 <= a < h && 0 <= b < w && !cells@.to_set().contains(
                                    (a as usize, b as usize),
                                ) ==> block_map@[a]@[b] == bm0[a]@[b],
                        decreases cells@.len() - k,
                    {
                        let (ci, cj) = cells[k];
                        proof {
                            assert(cells@.to_set().contains((ci, cj)));
                        }
                        set_cell(&mut block_map, ci, cj, bid);
                        k = k + 1;
                    }
                    proof {
                        assert forall|a: int, b: int|
                            0 <= a < h && 0 <= b < w && #[trigger] visited@[a]@[b] implies
                            block_map@[a]@[b] < blocks@.len()
                            && blocks@[block_map@[a]@[b] as int].cells().contains(
                            (a as usize, b as usize),
                        ) by {
                            if cells@.to_set().contains((a as usize, b as usize)) {
                                let n = choose|n: int|
                                    0 <= n < cells@.len() && cells@[n] == (a as usize, b as usize);
                                assert(block_map@[a]@[b] == bid);
                                assert(blocks@[bid as int].cells() == cells@.to_set());
                            } else {
                                assert(vis1[a]@[b]);
                                assert(block_map@[a]@[b] == bm0[a]@[b]);
                            }
                        }
                        assert(cells@.to_set().contains((i, j)));
                        assert(visited@[i as int]@[j as int]);
                        assert(blocks@[bid as int].cells() == cells@.to_set());
                        assert(forall|k: int| 0 <= k < bid ==> blocks@[k] == blocks_pre[k]);
                        // a cell of the freshly filled component was unvisited
                        // before the fill
                        assert forall|c: (usize, usize)| #[trigger]
                            cells@.to_set().contains(c) implies !vis_pre[c.0 as int]@[
                        c.1 as int] && m@[c.0 as int]@[c.1 as int] == color by {
                            let n = choose|n: int| 0 <= n < cells@.len() && cells@[n] == c;
                        }
                        // ownership: every block's cells are visited and point
                        // back at that block
                        assert forall|k: int, c: (usize, usize)|
                            0 <= k < blocks@.len() && #[trigger] blocks@[k].cells().contains(
                            c,
                        ) implies visited@[c.0 as int]@[c.1 as int] && block_map@[c.0 as int]@[
                        c.1 as int] == k by {
                            if k == bid {
                                let n = choose|n: int|
                                    0 <= n < cells@.len() && cells@[n] == c;
                                assert(block_map@[c.0 as int]@[c.1 as int] == bid);
                            } else {
                                assert(blocks_pre[k].cells().contains(c));
                                assert(vis_pre[c.0 as int]@[c.1 as int]);
                                assert(!cells@.to_set().contains(c));
                                assert(block_map@[c.0 as int]@[c.1 as int] == bm0[c.0 as int]@[
                                    c.1 as int]);
                            }
                        }
                        // one colour per block, all of it connected
                        assert forall|k: int, c: (usize, usize), d: (usize, usize)|
                            #![trigger blocks@[k].cells().contains(c), blocks@[k].cells().contains(d)]
                            0 <= k < blocks@.len() && blocks@[k].cells().contains(c)
                                && blocks@[k].cells().contains(d) implies m@[c.0 as int]@[
                        c.1 as int] == m@[d.0 as int]@[d.1 as int] && grid_connected(
                            m@,
                            h as int,
                            w as int,
                            c,
                            d,
                        ) by {
                            if k == bid {
                                assert(m@[c.0 as int]@[c.1 as int] == color);
                                assert(m@[d.0 as int]@[d.1 as int] == color);
                                let nc = choose|n: int|
                                    0 <= n < cells@.len() && cells@[n] == c;
                                let nd = choose|n: int|
                                    0 <= n < cells@.len() && cells@[n] == d;
                                assert(grid_connected(m@, h as int, w as int, (i, j), c));
                                assert(grid_connected(m@, h as int, w as int, (i, j), d));
                                lemma_connected_sym(m@, h as int, w as int, (i, j), c);
                                lemma_connected_trans(m@, h as int, w as int, c, (i, j), d);
                            } else {
                                assert(blocks_pre[k].cells().contains(c));
                                assert(blocks_pre[k].cells().contains(d));
                            }
                        }
                        // closure: a same-coloured neighbour of a block cell
                        // belongs to the same block
                        assert forall|k: int, c: (usize, usize), d: (usize, usize)|
                            #![trigger blocks@[k].cells().contains(c), adjacent(c, d)]
                            0 <= k < blocks@.len() && blocks@[k].cells().contains(c) && d.0 < h
                                && d.1 < w && adjacent(c, d) && m@[d.0 as int]@[d.1 as int]
                                == m@[c.0 as int]@[c.1 as int] implies blocks@[k].cells().contains(
                            d,
                        ) by {
                            if k == bid {
                                assert(cells@.to_set().contains(c));
                                assert(m@[c.0 as int]@[c.1 as int] == color);
                                assert(visited@[d.0 as int]@[d.1 as int]);
                                if !cells@.to_set().contains(d) {
                                    // the neighbour would lie in an earlier
                                    // block, whose closure would have claimed
                                    // this cell before the fill began
                                    assert(vis_pre[d.0 as int]@[d.1 as int]);
                                    let kk = bm0[d.0 as int]@[d.1 as int] as int;
                                    assert(0 <= kk < bid);
                                    assert(blocks_pre[kk].cells().contains(d));
                                    assert(adjacent(d, c));
                                    assert(blocks_pre[kk].cells().contains(c));
                                    assert(vis_pre[c.0 as int]@[c.1 as int]);
                                    assert(false);
                                }
                            } else {
                                assert(blocks_pre[k].cells().contains(c));
                                assert(blocks_pre[k].cells().contains(d));
                            }
                        }
                    }
                }
                proof {
                    assert(visited@[i as int]@[j as int]);
                }
                j = j + 1;
            }
            i = i + 1;
        }
        proof {
            lemma_count_grid_le(visited@, w as int);
            assert forall|a: int, b: int| 0 <= a < h && 0 <= b < w implies (
            #[trigger] block_map@[a]@[b]) < blocks@.len()
                && blocks@[block_map@[a]@[b] as int].cells().contains((a as usize, b as usize)) by {
                assert(visited@[a]@[b]);
            }
        }
        (blocks, block_map)
    }

    /// Flood fill: collects the 4-connected cells of `start`'s colour that
    /// were not yet visited, marking them visited.
    #[verifier::loop_isolation(false)]
    #[verifier::rlimit(80)]
    fn dfs(
        start: (usize, usize),
        color: &Codel,
        m: &Vec<Vec<Codel>>,
        visited: &mut Vec<Vec<bool>>,
        h: usize,
        w: usize,
    ) -> (r: Vec<(usize, usize)>)
        requires
            h > 0,
            w > 0,
            rect_of(m@, h as int, w as int),
            rect_of(old(visited)@, h as int, w as int),
            start.0 < h,
            start.1 < w,
            !old(visited)@[start.0 as int]@[start.1 as int],
            m@[start.0 as int]@[start.1 as int] == *color,
        ensures
            rect_of(final(visited)@, h as int, w as int),
            r@.len() > 0,
            r@.no_duplicates(),
            r@.to_set().contains(start),
            forall|n: int| 0 <= n < r@.len() ==> (#[trigger] r@[n]).0 < h && r@[n].1 < w,
            forall|n: int|
                0 <= n < r@.len() ==> m@[(#[trigger] r@[n]).0 as int]@[r@[n].1 as int] == *color,
            forall|n: int|
                0 <= n < r@.len() ==> !old(visited)@[(#[trigger] r@[n]).0 as int]@[r@[n].1 as int],
            forall|n: int|
                0 <= n < r@.len() ==> grid_connected(m@, h as int, w as int, start, #[trigger] r@[
                    n]),
            forall|a: int, b: int|
                0 <= a < h && 0 <= b < w ==> ((#[trigger] final(visited)@[a]@[b]) <==> (old(
                    visited,
                )@[a]@[b] || r@.to_set().contains((a as usize, b as usize)))),
            count_grid(final(visited)@) == count_grid(old(visited)@) + r@.len(),
            forall|c: (usize, usize), d: (usize, usize)|
                #![trigger r@.to_set().contains(c), adjacent(c, d)]
                r@.to_set().contains(c) && d.0 < h && d.1 < w && adjacent(c, d) && m@[d.0 as int]@[
                    d.1 as int] == *color ==> final(visited)@[d.0 as int]@[d.1 as int],
    {
        let mut collected: Vec<(usize, usize)> = Vec::new();
        let mut q: Vec<(usize, usize)> = Vec::new();
        q.push(start);
        proof {
            lemma_count_grid_le(old(visited)@, w as int);
            assert(q@[0] == start);
            assert(q@.to_set().contains(start));
            lemma_connected_self(m@, h as int, w as int, start);
        }
        loop
            invariant
                h > 0,
                w > 0,
                rect_of(m@, h as int, w as int),
                rect_of(visited@, h as int, w as int),
                forall|n: int| 0 <= n < q@.len() ==> (#[trigger] q@[n]).0 < h && q@[n].1 < w,
                forall|n: int|
                    0 <= n < q@.len() ==> m@[(#[trigger] q@[n]).0 as int]@[q@[n].1 as int]
                        == *color,
                forall|n: int|
                    0 <= n < q@.len() ==> grid_connected(
                        m@,
                        h as int,
                        w as int,
                        start,
                        #[trigger] q@[n],
                    ),
                forall|n: int|
                    0 <= n < collected@.len() ==> (#[trigger] collected@[n]).0 < h
                        && collected@[n].1 < w,
                forall|n: int|
                    0 <= n < collected@.len() ==> m@[(#[trigger] collected@[n]).0 as int]@[
                        collected@[n].1 as int] == *color,
                forall|n: int|
                    0 <= n < collected@.len() ==> !old(visited)@[(
                    #[trigger] collected@[n]).0 as int]@[collected@[n].1 as int],
                forall|n: int|
                    0 <= n < collected@.len() ==> grid_connected(
                        m@,
                        h as int,
                        w as int,
                        start,
                        #[trigger] collected@[n],
                    ),
                forall|c: (usize, usize), d: (usize, usize)|
                    #![trigger collected@.to_set().contains(c), adjacent(c, d)]
                    collected@.to_set().contains(c) && d.0 < h && d.1 < w && adjacent(c, d)
                        && m@[d.0 as int]@[d.1 as int] == *color ==> visited@[d.0 as int]@[
                        d.1 as int] || q@.to_set().contains(d),
                collected@.no_duplicates(),
                forall|n: int|
                    0 <= n < collected@.len() ==> visited@[(#[trigger] collected@[n]).0 as int]@[
                        collected@[n].1 as int],
                forall|a: int, b: int|
                    0 <= a < h && 0 <= b < w ==> ((#[trigger] visited@[a]@[b]) <==> (old(
                        visited,
                    )@[a]@[b] || collected@.to_set().contains((a as usize, b as usize)))),
                count_grid(visited@) == count_grid(old(visited)@) + collected@.len(),
                collected@.to_set().contains(start) || q@.to_set().contains(start),
                !old(visited)@[start.0 as int]@[start.1 as int],
                start.0 < h && start.1 < w,
                count_grid(visited@) <= (h as int) * (w as int),
            decreases (h as int) * (w as int) - count_grid(visited@), q@.len(),
        {
            let ghost q0 = q@;
            let ghost ctop = collected@;
            let cur = match q.pop() {
                Some(c) => c,
                None => {
                    break ;
                },
            };
            let (ci, cj) = cur;
            proof {
                assert(q0 =~= q@.push(cur));
                if !collected@.to_set().contains(start) {
                    let n = choose|n: int| 0 <= n < q0.len() && q0[n] == start;
                    if n < q@.len() {
                        assert(q@[n] == start);
                    } else {
                        assert(cur == start);
                    }
                }
            }
            if !get_flag(visited, ci, cj) {
                let ghost vis0 = visited@;
                let ghost col0 = collected@;
                set_flag(visited, ci, cj);
                proof {
                    lemma_count_grid_update(
                        vis0,
                        ci as int,
                        visited@[ci as int],
                        cj as int,
                    );
                    assert(!col0.to_set().contains(cur));
                    lemma_push_unique(col0, cur);
                }
                collected.push(cur);
                proof {
                    lemma_count_grid_le(visited@, w as int);
                    assert forall|a: int, b: int| 0 <= a < h && 0 <= b < w implies ((
                    #[trigger] visited@[a]@[b]) <==> (old(visited)@[a]@[b]
                        || collected@.to_set().contains((a as usize, b as usize)))) by {
                        if a == ci as int && b == cj as int {
                            assert(visited@[a]@[b]);
                            assert(collected@[collected@.len() - 1] == cur);
                            assert(collected@.to_set().contains((a as usize, b as usize)));
                        } else {
                            assert(visited@[a]@[b] == vis0[a]@[b]);
                            let e = (a as usize, b as usize);
                            assert(e != cur);
                            assert(collected@.to_set().contains(e) == col0.to_set().contains(e))
                                by {
                                if collected@.to_set().contains(e) {
                                    let n = choose|n: int|
                                        0 <= n < collected@.len() && collected@[n] == e;
                                    assert(n < col0.len());
                                    assert(col0[n] == e);
                                    assert(col0.to_set().contains(e));
                                }
                                if col0.to_set().contains(e) {
                                    let n = choose|n: int| 0 <= n < col0.len() && col0[n] == e;
                                    assert(collected@[n] == e);
                                    assert(collected@.to_set().contains(e));
                                }
                            };
                        }
                    }
                }
                // push the unvisited same-coloured neighbours
                proof {
                    assert(cur == q0[q0.len() - 1]);
                    assert(grid_connected(m@, h as int, w as int, start, cur));
                }
                let ghost qp0 = q@;
                if ci > 0 {
                    if m[ci - 1][cj] == *color && !get_flag(visited, ci - 1, cj) {
                        proof {
                            lemma_connected_step(
                                m@,
                                h as int,
                                w as int,
                                start,
                                cur,
                                ((ci - 1) as usize, cj),
                            );
                        }
                        q.push((ci - 1, cj));
                    }
                }
                let ghost qp1 = q@;
                if ci + 1 < h {
                    if m[ci + 1][cj] == *color && !get_flag(visited, ci + 1, cj) {
                        proof {
                            lemma_connected_step(
                                m@,
                                h as int,
                                w as int,
                                start,
                                cur,
                                ((ci + 1) as usize, cj),
                            );
                        }
                        q.push((ci + 1, cj));
                    }
                }
                let ghost qp2 = q@;
                if cj > 0 {
                    if m[ci][cj - 1] == *color && !get_flag(visited, ci, cj - 1) {
                        proof {
                            lemma_connected_step(
                                m@,
                                h as int,
                                w as int,
                                start,
                                cur,
                                (ci, (cj - 1) as usize),
                            );
                        }
                        q.push((ci, cj - 1));
                    }
                }
                let ghost qp3 = q@;
                if cj + 1 < w {
                    if m[ci][cj + 1] == *color && !get_flag(visited, ci, cj + 1) {
                        proof {
                            lemma_connected_step(
                                m@,
                                h as int,
                                w as int,
                                start,
                                cur,
                                (ci, (cj + 1) as usize),
                            );
                        }
                        q.push((ci, cj + 1));
                    }
                }
                proof {
                    assert(forall|n: int| 0 <= n < qp0.len() ==> q@[n] == qp0[n]);
                    assert(forall|n: int| 0 <= n < qp1.len() ==> q@[n] == qp1[n]);
                    assert(forall|n: int| 0 <= n < qp2.len() ==> q@[n] == qp2[n]);
                    assert(forall|n: int| 0 <= n < qp3.len() ==> q@[n] == qp3[n]);
                }
                proof {
                    assert(forall|n: int| 0 <= n < q0.len() - 1 ==> q@[n] == q0[n]);
                    assert forall|c: (usize, usize), d: (usize, usize)|
                        #![trigger collected@.to_set().contains(c), adjacent(c, d)]
                        collected@.to_set().contains(c) && d.0 < h && d.1 < w && adjacent(c, d)
                            && m@[d.0 as int]@[d.1 as int] == *color implies visited@[d.0 as int]@[
                        d.1 as int] || q@.to_set().contains(d) by {
                        if !visited@[d.0 as int]@[d.1 as int] {
                            if c == cur {
                                // each same-coloured in-grid neighbour of the
                                // newly collected cell was visited or pushed
                                if c.0 == d.0 && c.1 + 1 == d.1 {
                                    assert(d == (ci, (cj + 1) as usize));
                                    assert(q@ == qp3.push(d));
                                    assert(q@[qp3.len() as int] == d);
                                    assert(q@.to_set().contains(d));
                                } else if c.0 == d.0 && d.1 + 1 == c.1 {
                                    assert(d == (ci, (cj - 1) as usize));
                                    assert(qp3 == qp2.push(d));
                                    assert(q@[qp2.len() as int] == d);
                                    assert(q@.to_set().contains(d));
                                } else if c.1 == d.1 && c.0 + 1 == d.0 {
                                    assert(d == ((ci + 1) as usize, cj));
                                    assert(qp2 == qp1.push(d));
                                    assert(q@[qp1.len() as int] == d);
                                    assert(q@.to_set().contains(d));
                                } else {
                                    assert(d == ((ci - 1) as usize, cj));
                                    assert(qp1 == qp0.push(d));
                                    assert(q@[qp0.len() as int] == d);
                                    assert(q@.to_set().contains(d));
                                }
                            } else {
                                assert(col0.to_set().contains(c)) by {
                                    let n = choose|n: int|
                                        0 <= n < collected@.len() && collected@[n] == c;
                                    assert(n < col0.len());
                                    assert(col0[n] == c);
                                };
                                assert(!vis0[d.0 as int]@[d.1 as int]);
                                assert(q0.to_set().contains(d));
                                let n = choose|n: int| 0 <= n < q0.len() && q0[n] == d;
                                assert(q0[q0.len() - 1] == cur);
                                if n == q0.len() - 1 {
                                    assert(d == cur);
                                    assert(false);
                                }
                                assert(q@[n] == d);
                                assert(q@.to_set().contains(d));
                            }
                        }
                    }
                }
            } else {
                // an already visited cell: nothing collected, the queue only
                // shrank by that cell
                proof {
                    assert(forall|n: int| 0 <= n < q0.len() - 1 ==> q@[n] == q0[n]);
                    assert forall|c: (usize, usize), d: (usize, usize)|
                        #![trigger collected@.to_set().contains(c), adjacent(c, d)]
                        collected@.to_set().contains(c) && d.0 < h && d.1 < w && adjacent(c, d)
                            && m@[d.0 as int]@[d.1 as int] == *color implies visited@[d.0 as int]@[
                        d.1 as int] || q@.to_set().contains(d) by {
                        if !visited@[d.0 as int]@[d.1 as int] {
                            assert(q0.to_set().contains(d));
                            let n = choose|n: int| 0 <= n < q0.len() && q0[n] == d;
                            assert(q0[q0.len() - 1] == cur);
                            if n == q0.len() - 1 {
                                assert(d == cur);
                                assert(visited@[cur.0 as int]@[cur.1 as int]);
                                assert(false);
                            }
                            assert(q@[n] == d);
                            assert(q@.to_set().contains(d));
                        }
                    }
                }
            }
            proof {
                let sa = start.0 as int;
                let sb = start.1 as int;
                assert((sa as usize, sb as usize) == start);
                assert(forall|n: int| 0 <= n < ctop.len() ==> collected@[n] == ctop[n]);
                if !collected@.to_set().contains(start) {
                    assert(!ctop.to_set().contains(start)) by {
                        if ctop.to_set().contains(start) {
                            let n = choose|n: int| 0 <= n < ctop.len() && ctop[n] == start;
                            assert(collected@[n] == start);
                            assert(collected@.to_set().contains(start));
                        }
                    };
                    assert(q0.to_set().contains(start));
                    assert(!visited@[sa]@[sb]);
                    assert(visited@[cur.0 as int]@[cur.1 as int]);
                    assert(cur != start);
                    let n = choose|n: int| 0 <= n < q0.len() && q0[n] == start;
                    assert(q0[q0.len() - 1] == cur);
                    assert(n < q0.len() - 1);
                    assert(q@[n] == start);
                    assert(q@.to_set().contains(start));
                }
            }
        }
        proof {
            assert(collected@.to_set().contains(start));
            assert(collected@.len() > 0) by {
                let n = choose|n: int| 0 <= n < collected@.len() && collected@[n] == start;
            }
        }
        collected
    }

    /// The codel at a grid coordinate.
    pub fn get_codel_at(&self, pos: (usize, usize)) -> (r: &Codel)
        requires
            self.wf(),
            self.in_bounds(pos),
        ensures
            *r == self.codel_spec(pos),
    {
        &self.m[pos.0][pos.1]
    }

    /// The size of the block owning a grid coordinate.
    pub fn get_block_size_at(&self, pos: (usize, usize)) -> (r: usize)
        requires
            self.wf(),
            self.in_bounds(pos),
        ensures
            r == self.block_spec(pos).size,
            0 < r <= isize::MAX as usize,
    {
        self.blocks[self.block_map[pos.0][pos.1]].size
    }

    /// One straight step from `pos` in the direction of `dp`, as a
    /// specification value: the displaced coordinate, or nothing off-grid.
    pub open spec fn step_in_dir(self, pos: (usize, usize), dp: DP) -> Option<(usize, usize)> {
        let d = dp.displacement_spec();
        let ni = pos.0 + d.0;
        let nj = pos.1 + d.1;
        if 0 <= ni < self.height_spec() && 0 <= nj < self.width_spec() {
            Some(((ni as usize), (nj as usize)))
        } else {
            None
        }
    }

    /// The coordinate the traversal tries to leave the current block at: one
    /// step in the DP's direction from the block's (DP, CC) exit corner.
    /// Nothing is returned off-grid.
    pub fn get_next_codel_index(&self, pos: (usize, usize), dp: &DP, cc: &CC) -> (r: Option<
        (usize, usize),
    >)
        requires
            self.wf(),
            self.in_bounds(pos),
        ensures
            r == self.step_in_dir(self.block_spec(pos).corner_spec(*dp, *cc), *dp),
            r matches Some(q) ==> self.in_bounds(q),
    {
        let corner = self.blocks[self.block_map[pos.0][pos.1]].get_corner_index(dp, cc);
        proof {
            crate::block::lemma_corner_in_block(self.block_spec(pos), *dp, *cc);
        }
        self.get_next_codel_index_in_dp_direction(corner, dp)
    }

    /// The coordinate one straight step from `pos` in the direction of `dp`;
    /// nothing is returned iff that step leaves the grid.
    pub fn get_next_codel_index_in_dp_direction(&self, pos: (usize, usize), dp: &DP) -> (r: Option<
        (usize, usize),
    >)
        requires
            self.wf(),
            self.in_bounds(pos),
        ensures
            r == self.step_in_dir(pos, *dp),
            r matches Some(q) ==> self.in_bounds(q),
    {
        let (i, j) = pos;
        match dp {
            DP::Right => {
                if j + 1 < self.width {
                    Some((i, j + 1))
                } else {
                    None
                }
            },
            DP::Down => {
                if i + 1 < self.height {
                    Some((i + 1, j))
                } else {
                    None
                }
            },
            DP::Left => {
                if j > 0 {
                    Some((i, j - 1))
                } else {
                    None
                }
            },
            DP::Up => {
                if i > 0 {
                    Some((i - 1, j))
                } else {
                    None
                }
            },
        }
    }
}

/// `p` is a path on the image's codel grid: nonempty, in bounds, all of one
/// colour, each step to a 4-neighbour.
pub open spec fn image_color_path(img: Image, p: Seq<(usize, usize)>) -> bool {
    &&& p.len() > 0
    &&& forall|n: int| 0 <= n < p.len() ==> img.in_bounds(#[trigger] p[n])
    &&& forall|n: int| 0 <= n < p.len() ==> img.codel_spec(#[trigger] p[n]) == img.codel_spec(p[0])
    &&& forall|n: int| 0 <= n < p.len() - 1 ==> adjacent(#[trigger] p[n], p[n + 1])
}

/// Some same-coloured 4-connected path of the image joins `a` to `b`.
pub open spec fn connected(img: Image, a: (usize, usize), b: (usize, usize)) -> bool {
    exists|p: Seq<(usize, usize)>|
        #[trigger] image_color_path(img, p) && p.first() == a && p.last() == b
}

/// The two path forms coincide: one speaks through the image's view, the
/// other through the raw grid.
proof fn lemma_path_forms(img: Image, p: Seq<(usize, usize)>)
    ensures
        image_color_path(img, p) == color_path(
            img.m@,
            img.height as int,
            img.width as int,
            p,
        ),
{
    let h = img.height as int;
    let w = img.width as int;
    if image_color_path(img, p) {
        assert(color_path(img.m@, h, w, p)) by {
            assert(forall|n: int|
                0 <= n < p.len() ==> img.in_bounds(#[trigger] p[n]) && img.codel_spec(p[n])
                    == img.codel_spec(p[0]));
        };
    }
    if color_path(img.m@, h, w, p) {
        assert(image_color_path(img, p)) by {
            assert(forall|n: int|
                0 <= n < p.len() ==> (#[trigger] p[n]).0 < h && p[n].1 < w && img.m@[
                    p[n].0 as int]@[p[n].1 as int] == img.m@[p[0].0 as int]@[p[0].1 as int]);
        };
    }
}

proof fn lemma_connected_forms(img: Image, a: (usize, usize), b: (usize, usize))
    ensures
        connected(img, a, b) == grid_connected(
            img.m@,
            img.height as int,
            img.width as int,
            a,
            b,
        ),
{
    let h = img.height as int;
    let w = img.width as int;
    if connected(img, a, b) {
        let p = choose|p: Seq<(usize, usize)>|
            #[trigger] image_color_path(img, p) && p.first() == a && p.last() == b;
        lemma_path_forms(img, p);
        assert(color_path(img.m@, h, w, p) && p.first() == a && p.last() == b);
    }
    if grid_connected(img.m@, h, w, a, b) {
        let p = choose|p: Seq<(usize, usize)>|
            #[trigger] color_path(img.m@, h, w, p) && p.first() == a && p.last() == b;
        lemma_path_forms(img, p);
        assert(image_color_path(img, p) && p.first() == a && p.last() == b);
    }
}

/// A block is closed under its paths: a same-coloured path starting inside
/// stays inside.
proof fn lemma_component_in_block(img: Image, k: int, p: Seq<(usize, usize)>)
    requires
        img.wf(),
        0 <= k < img.blocks@.len(),
        color_path(img.m@, img.height as int, img.width as int, p),
        img.blocks@[k].cells().contains(p[0]),
    ensures
        img.blocks@[k].cells().contains(p.last()),
    decreases p.len(),
{
    let h = img.height as int;
    let w = img.width as int;
    if p.len() > 1 {
        let q = p.drop_last();
        assert(color_path(img.m@, h, w, q)) by {
            assert(forall|n: int| 0 <= n < q.len() ==> q[n] == #[trigger] p[n]);
        };
        lemma_component_in_block(img, k, q);
        assert(img.blocks@[k].cells().contains(p[p.len() - 2]));
        assert(adjacent(p[p.len() - 2], p[p.len() - 1]));
        assert(img.m@[p[p.len() - 1].0 as int]@[p[p.len() - 1].1 as int] == img.m@[p[p.len()
            - 2].0 as int]@[p[p.len() - 2].1 as int]);
    }
}

/// Every grid coordinate is owned by a well-formed block that contains it,
/// and that block is the maximal 4-connected one-colour region of the
/// coordinate: its cells carry the coordinate's colour and name the same
/// block, and they are exactly the cells a same-coloured 4-connected path
/// reaches. With `get_block_size_at`'s contract this pins the pushed block
/// size as the size of that region.
pub proof fn lemma_block_map_total(img: Image, pos: (usize, usize))
    requires
        img.wf(),
        img.in_bounds(pos),
    ensures
        img.block_spec(pos).wf(),
        img.block_spec(pos).cells().contains(pos),
        forall|c: (usize, usize)| #[trigger]
            img.block_spec(pos).cells().contains(c) ==> img.in_bounds(c) && img.codel_spec(c)
                == img.codel_spec(pos) && img.block_spec(c) == img.block_spec(pos),
        forall|c: (usize, usize), d: (usize, usize)|
            #![trigger img.block_spec(pos).cells().contains(c), adjacent(c, d)]
            img.block_spec(pos).cells().contains(c) && img.in_bounds(d) && adjacent(c, d)
                && img.codel_spec(d) == img.codel_spec(c) ==> img.block_spec(
                pos,
            ).cells().contains(d),
        forall|c: (usize, usize)|
            #![trigger img.block_spec(pos).cells().contains(c)]
            #![trigger connected(img, pos, c)]
            img.block_spec(pos).cells().contains(c) <==> connected(img, pos, c),
{
    let i = pos.0 as int;
    let j = pos.1 as int;
    let h = img.height as int;
    let w = img.width as int;
    let k = img.block_map@[i]@[j] as int;
    assert(img.blocks@[k].cells().contains((i as usize, j as usize)));
    assert((i as usize, j as usize) == pos);
    assert forall|c: (usize, usize)| #[trigger]
        img.block_spec(pos).cells().contains(c) implies img.in_bounds(c) && img.codel_spec(c)
        == img.codel_spec(pos) && img.block_spec(c) == img.block_spec(pos) by {
        assert(img.blocks@[k].cells().contains(c));
        assert(img.block_map@[c.0 as int]@[c.1 as int] == k);
    }
    assert forall|c: (usize, usize)|
        #![trigger img.block_spec(pos).cells().contains(c)]
        #![trigger connected(img, pos, c)]
        img.block_spec(pos).cells().contains(c) <==> connected(img, pos, c) by {
        lemma_connected_forms(img, pos, c);
        if img.block_spec(pos).cells().contains(c) {
            assert(img.blocks@[k].cells().contains(c));
            assert(grid_connected(img.m@, h, w, pos, c));
        }
        if connected(img, pos, c) {
            let pth = choose|pth: Seq<(usize, usize)>|
                #[trigger] color_path(img.m@, h, w, pth) && pth.first() == pos && pth.last()
                    == c;
            lemma_component_in_block(img, k, pth);
        }
    }
}

/// Dividing evenly by `s >= 1` gives a quotient between 1 and the dividend.
proof fn lemma_divisor_bounds(n: int, s: int)
    requires
        n > 0,
        s >= 1,
        n % s == 0,
    ensures
        1 <= n / s <= n,
        n == s * (n / s),
        s <= n,
    {
    vstd::arithmetic::div_mod::lemma_fundamental_div_mod(n, s);
    vstd::arithmetic::div_mod::lemma_div_pos_is_pos(n, s);
    vstd::arithmetic::div_mod::lemma_div_nonincreasing(n, s);
    if n / s == 0 {
        assert(n == s * 0 + 0);
    }
    if s > n {
        vstd::arithmetic::div_mod::lemma_small_mod(n as nat, s as nat);
    }
}

/// A codel size of one is always workable.
proof fn lemma_size_one_ok(pm: Seq<Vec<Pixel>>)
    requires
        pm.len() > 0,
        pm[0]@.len() > 0,
    ensures
        codel_size_ok(pm, 1),
{
    vstd::arithmetic::div_mod::lemma_fundamental_div_mod(pm.len() as int, 1);
    vstd::arithmetic::div_mod::lemma_mod_bound(pm.len() as int, 1);
    vstd::arithmetic::div_mod::lemma_fundamental_div_mod(pm[0]@.len() as int, 1);
    vstd::arithmetic::div_mod::lemma_mod_bound(pm[0]@.len() as int, 1);
    assert forall|i: int, j: int|
        0 <= i < pm.len() / 1 && 0 <= j < pm[0]@.len() / 1 implies #[trigger] tile_uniform(
        pm,
        1,
        i,
        j,
    ) by {
        assert forall|x: int, y: int|
            i * 1 <= x < (i + 1) * 1 && j * 1 <= y < (j + 1) * 1 implies (#[trigger] pm[x]@[y])
            == pm[i * 1]@[j * 1] by {
            assert(x == i && y == j);
        }
    }
}

/// The largest workable codel size is uniquely characterised, so the chosen
/// value of `best_codel_size` is the one detection finds.
proof fn lemma_best_size_unique(pm: Seq<Vec<Pixel>>, s: int)
    requires
        codel_size_ok(pm, s),
        forall|t: int| s < t ==> !#[trigger] codel_size_ok(pm, t),
    ensures
        best_codel_size(pm) == s,
{
    assert(codel_size_ok(pm, s) && (forall|t: int| s < t ==> !#[trigger] codel_size_ok(pm, t)));
    let b = best_codel_size(pm);
    assert(codel_size_ok(pm, b) && (forall|t: int| b < t ==> !#[trigger] codel_size_ok(pm, t)))
        by {
        assert(exists|s0: int|
            codel_size_ok(pm, s0) && (forall|t: int| s0 < t ==> !#[trigger] codel_size_ok(
                pm,
                t,
            )));
    };
    if b < s {
        assert(!codel_size_ok(pm, s));
    } else if s < b {
        assert(!codel_size_ok(pm, b));
    }
}

/// Checks one tile for a single colour.
#[verifier::loop_isolation(false)]
fn tile_is_uniform(
    pixel_map: &Vec<Vec<Pixel>>,
    s: usize,
    i: usize,
    j: usize,
    h: usize,
    w: usize,
) -> (r: bool)
    requires
        s >= 1,
        rect_of(pixel_map@, pixel_map@.len() as int, pixel_map@[0]@.len() as int),
        pixel_map@.len() as int == (s as int) * (h as int),
        pixel_map@[0]@.len() as int == (s as int) * (w as int),
        i < h,
        j < w,
    ensures
        r == tile_uniform(pixel_map@, s as int, i as int, j as int),
{
    proof {
        assert((i as int) * (s as int) + (s as int) <= (s as int) * (h as int) && (j as int) * (
        s as int) + (s as int) <= (s as int) * (w as int)) by (nonlinear_arith)
            requires
                0 <= i < h,
                0 <= j < w,
                s >= 1,
        ;
        assert((i as int + 1) * (s as int) == (i as int) * (s as int) + (s as int)
            && (j as int + 1) * (s as int) == (j as int) * (s as int) + (s as int))
            by (nonlinear_arith);
    }
    let ph = pixel_map.len();
    let pw = pixel_map[0].len();
    let oi = i * s;
    let oj = j * s;
    let p = pixel_map[oi][oj];
    let mut x: usize = oi;
    while x < oi + s
        invariant
            oi <= x <= oi + s,
            oi == i * s,
            oj == j * s,
            oi + s <= pixel_map@.len(),
            oj + s <= pixel_map@[0]@.len(),
            rect_of(pixel_map@, pixel_map@.len() as int, pixel_map@[0]@.len() as int),
            p == pixel_map@[oi as int]@[oj as int],
            forall|x2: int, y2: int|
                oi <= x2 < x && oj <= y2 < oj + s ==> (#[trigger] pixel_map@[x2]@[y2]) == p,
        decreases oi + s - x,
    {
        let mut y: usize = oj;
        while y < oj + s
            invariant
                oi <= x < oi + s,
                oj <= y <= oj + s,
                oi + s <= pixel_map@.len(),
                oj + s <= pixel_map@[0]@.len(),
                rect_of(pixel_map@, pixel_map@.len() as int, pixel_map@[0]@.len() as int),
                p == pixel_map@[oi as int]@[oj as int],
                forall|x2: int, y2: int|
                    oi <= x2 < x && oj <= y2 < oj + s ==> (#[trigger] pixel_map@[x2]@[y2]) == p,
                forall|y2: int|
                    oj <= y2 < y ==> (#[trigger] pixel_map@[x as int]@[y2]) == p,
            decreases oj + s - y,
        {
            if pixel_map[x][y] != p {
                return false;
            }
            y = y + 1;
        }
        x = x + 1;
    }
    true
}

/// A row of `w` false flags.
pub(crate) fn make_bool_row(w: usize) -> (r: Vec<bool>)
    ensures
        r@.len() == w,
        forall|b: int| 0 <= b < w ==> !(#[trigger] r@[b]),
{
    let mut row: Vec<bool> = Vec::new();
    let mut k: usize = 0;
    while k < w
        invariant
            k <= w,
            row@.len() == k,
            forall|b: int| 0 <= b < k ==> !(#[trigger] row@[b]),
        decreases w - k,
    {
        row.push(false);
        k = k + 1;
    }
    row
}

/// A row of `w` zero indices.
fn make_zero_row(w: usize) -> (r: Vec<usize>)
    ensures
        r@.len() == w,
{
    let mut row: Vec<usize> = Vec::new();
    let mut k: usize = 0;
    while k < w
        invariant
            k <= w,
            row@.len() == k,
        decreases w - k,
    {
        row.push(0);
        k = k + 1;
    }
    row
}

/// An all-false grid counts no true flags.
proof fn lemma_count_grid_false(m: Seq<Vec<bool>>, w: int)
    requires
        forall|a: int, b: int| 0 <= a < m.len() && 0 <= b < w ==> !(#[trigger] m[a]@[b]),
        forall|a: int| 0 <= a < m.len() ==> (#[trigger] m[a])@.len() == w,
    ensures
        count_grid(m) == 0,
    decreases m.len(),
{
    if m.len() > 0 {
        lemma_count_grid_false(m.drop_last(), w);
        lemma_count_row_false(m.last()@);
    }
}

proof fn lemma_count_row_false(s: Seq<bool>)
    requires
        forall|b: int| 0 <= b < s.len() ==> !(#[trigger] s[b]),
    ensures
        count_row(s) == 0,
    decreases s.len(),
{
    if s.len() > 0 {
        lemma_count_row_false(s.drop_last());
    }
}

/// Pushing a fresh element keeps a sequence duplicate-free.
proof fn lemma_push_unique<T>(s: Seq<T>, x: T)
    requires
        s.no_duplicates(),
        !s.to_set().contains(x),
    ensures
        s.push(x).no_duplicates(),
{
    assert forall|i: int, j: int|
        0 <= i < s.push(x).len() && 0 <= j < s.push(x).len() && i != j implies s.push(x)[i]
        != s.push(x)[j] by {
        if i < s.len() && j < s.len() {
        } else if j == s.len() {
            assert(s.push(x)[j] == x);
            assert(s.contains(s[i]));
        } else {
            assert(s.push(x)[i] == x);
            assert(s.contains(s[j]));
        }
    }
}

/// Reads one flag of a visited grid.
pub(crate) fn get_flag(visited: &Vec<Vec<bool>>, i: usize, j: usize) -> (r: bool)
    requires
        i < visited@.len(),
        j < visited@[i as int]@.len(),
    ensures
        r == visited@[i as int]@[j as int],
{
    visited[i][j]
}

/// Sets one flag of a visited grid.
pub(crate) fn set_flag(visited: &mut Vec<Vec<bool>>, i: usize, j: usize)
    requires
        i < old(visited)@.len(),
        j < old(visited)@[i as int]@.len(),
    ensures
        final(visited)@.len() == old(visited)@.len(),
        final(visited)@ == old(visited)@.update(
            i as int,
            final(visited)@[i as int],
        ),
        final(visited)@[i as int]@ == old(visited)@[i as int]@.update(j as int, true),
    {
    let row = &mut visited[i];
    row[j] = true;
}

/// Writes one entry of the block index.
fn set_cell(block_map: &mut Vec<Vec<usize>>, i: usize, j: usize, v: usize)
    requires
        i < old(block_map)@.len(),
        j < old(block_map)@[i as int]@.len(),
    ensures
        final(block_map)@.len() == old(block_map)@.len(),
        final(block_map)@ == old(block_map)@.update(
            i as int,
            final(block_map)@[i as int],
        ),
        final(block_map)@[i as int]@ == old(block_map)@[i as int]@.update(j as int, v),
    {
    let row = &mut block_map[i];
    row[j] = v;
}

} // verus!
