//! Color classification for the fixed 20-entry Piet palette.
//!
//! A sampled pixel is an exact RGB triple; 18 of the entries are chromatic
//! (six hues at three lightness levels), plus black and white. Any other
//! triple is a format error.

use vstd::prelude::*;

verus! {

use crate::conn::adjacent;
use crate::conn::connected;

/// A coordinate of the sampled grid, in image-pixel space. Every sampled
/// coordinate is a multiple of the codel size on both axes.
pub type Coord = (i32, i32);

/// The six cyclic hues of the chromatic palette entries.
#[derive(Clone, Copy, Debug, PartialEq, Eq, Structural)]
pub enum Hue {
    Red,
    Yellow,
    Green,
    Cyan,
    Blue,
    Magenta,
}

/// The three cyclic lightness levels of the chromatic palette entries.
#[derive(Clone, Copy, Debug, PartialEq, Eq, Structural)]
pub enum Lightness {
    Light,
    Normal,
    Dark,
}

/// The semantic color of one codel: chromatic, black, or white.
#[derive(Clone, Copy, Debug, PartialEq, Eq, Structural)]
pub enum Type {
    Color(Lightness, Hue),
    Black,
    White,
}

/// Whether `c` is a sampled coordinate of a `w`-by-`h` image sampled at
/// multiples of `cs` on both axes.
pub open spec fn grid_member(w: int, h: int, cs: int, c: Coord) -> bool {
    &&& 0 <= c.0 < w
    &&& 0 <= c.1 < h
    &&& c.0 as int % cs == 0
    &&& c.1 as int % cs == 0
}

/// The palette entry of the sample at `c` in a row-major pixel sequence of
/// row length `w`.
pub open spec fn classify_at(pixels: Seq<(u8, u8, u8)>, w: int, c: Coord) -> Option<Type> {
    let p = pixels[(c.1 as int) * w + c.0 as int];
    classify(p.0, p.1, p.2)
}

/// The palette: which `Type` an exact RGB triple denotes, if any.
pub open spec fn classify(r: u8, g: u8, b: u8) -> Option<Type> {
    match (r, g, b) {
        (0xff, 0xc0, 0xc0) => Some(Type::Color(Lightness::Light, Hue::Red)),
        (0xff, 0x00, 0x00) => Some(Type::Color(Lightness::Normal, Hue::Red)),
        (0xc0, 0x00, 0x00) => Some(Type::Color(Lightness::Dark, Hue::Red)),
        (0xff, 0xff, 0xc0) => Some(Type::Color(Lightness::Light, Hue::Yellow)),
        (0xff, 0xff, 0x00) => Some(Type::Color(Lightness::Normal, Hue::Yellow)),
        (0xc0, 0xc0, 0x00) => Some(Type::Color(Lightness::Dark, Hue::Yellow)),
        (0xc0, 0xff, 0xc0) => Some(Type::Color(Lightness::Light, Hue::Green)),
        (0x00, 0xff, 0x00) => Some(Type::Color(Lightness::Normal, Hue::Green)),
        (0x00, 0xc0, 0x00) => Some(Type::Color(Lightness::Dark, Hue::Green)),
        (0xc0, 0xff, 0xff) => Some(Type::Color(Lightness::Light, Hue::Cyan)),
        (0x00, 0xff, 0xff) => Some(Type::Color(Lightness::Normal, Hue::Cyan)),
        (0x00, 0xc0, 0xc0) => Some(Type::Color(Lightness::Dark, Hue::Cyan)),
        (0xc0, 0xc0, 0xff) => Some(Type::Color(Lightness::Light, Hue::Blue)),
        (0x00, 0x00, 0xff) => Some(Type::Color(Lightness::Normal, Hue::Blue)),
        (0x00, 0x00, 0xc0) => Some(Type::Color(Lightness::Dark, Hue::Blue)),
        (0xff, 0xc0, 0xff) => Some(Type::Color(Lightness::Light, Hue::Magenta)),
        (0xff, 0x00, 0xff) => Some(Type::Color(Lightness::Normal, Hue::Magenta)),
        (0xc0, 0x00, 0xc0) => Some(Type::Color(Lightness::Dark, Hue::Magenta)),
        (0x00, 0x00, 0x00) => Some(Type::Black),
        (0xff, 0xff, 0xff) => Some(Type::White),
        _ => None,
    }
}

/// Maps an RGB triple to its palette entry. `None` means the triple is not
/// in the palette, which callers surface as an invalid-color error.
pub fn to_blocktype(color: &[u8; 3]) -> (t: Option<Type>)
    ensures
        t == classify(color[0], color[1], color[2]),
{
    match (color[0], color[1], color[2]) {
        (0xff, 0xc0, 0xc0) => Some(Type::Color(Lightness::Light, Hue::Red)),
        (0xff, 0x00, 0x00) => Some(Type::Color(Lightness::Normal, Hue::Red)),
        (0xc0, 0x00, 0x00) => Some(Type::Color(Lightness::Dark, Hue::Red)),
        (0xff, 0xff, 0xc0) => Some(Type::Color(Lightness::Light, Hue::Yellow)),
        (0xff, 0xff, 0x00) => Some(Type::Color(Lightness::Normal, Hue::Yellow)),
        (0xc0, 0xc0, 0x00) => Some(Type::Color(Lightness::Dark, Hue::Yellow)),
        (0xc0, 0xff, 0xc0) => Some(Type::Color(Lightness::Light, Hue::Green)),
        (0x00, 0xff, 0x00) => Some(Type::Color(Lightness::Normal, Hue::Green)),
        (0x00, 0xc0, 0x00) => Some(Type::Color(Lightness::Dark, Hue::Green)),
        (0xc0, 0xff, 0xff) => Some(Type::Color(Lightness::Light, Hue::Cyan)),
        (0x00, 0xff, 0xff) => Some(Type::Color(Lightness::Normal, Hue::Cyan)),
        (0x00, 0xc0, 0xc0) => Some(Type::Color(Lightness::Dark, Hue::Cyan)),
        (0xc0, 0xc0, 0xff) => Some(Type::Color(Lightness::Light, Hue::Blue)),
        (0x00, 0x00, 0xff) => Some(Type::Color(Lightness::Normal, Hue::Blue)),
        (0x00, 0x00, 0xc0) => Some(Type::Color(Lightness::Dark, Hue::Blue)),
        (0xff, 0xc0, 0xff) => Some(Type::Color(Lightness::Light, Hue::Magenta)),
        (0xff, 0x00, 0xff) => Some(Type::Color(Lightness::Normal, Hue::Magenta)),
        (0xc0, 0x00, 0xc0) => Some(Type::Color(Lightness::Dark, Hue::Magenta)),
        (0x00, 0x00, 0x00) => Some(Type::Black),
        (0xff, 0xff, 0xff) => Some(Type::White),
        _ => None,
    }
}

/// The construction-time failure: some sample's RGB triple is outside the
/// palette.
#[derive(Clone, Copy, Debug, PartialEq, Eq, Structural)]
pub enum DecodeError {
    InvalidColor,
}

/// One block: a color type together with the 4-connected coordinate set
/// forming it.
pub struct Block {
    pub t: Type,
    pub coords: Vec<Coord>,
}

impl Block {
    /// Whether `c` is one of this block's coordinates.
    pub open spec fn has(self, c: Coord) -> bool {
        self.coords@.contains(c)
    }

    /// Membership test for one coordinate.
    pub fn contains_coord(&self, c: Coord) -> (r: bool)
        ensures
            r == self.has(c),
    {
        let mut i: usize = 0;
        while i < self.coords.len()
            invariant
                i <= self.coords.len(),
                forall|k: int| 0 <= k < i ==> self.coords@[k] != c,
            decreases self.coords.len() - i,
        {
            if self.coords[i].0 == c.0 && self.coords[i].1 == c.1 {
                return true;
            }
            i += 1;
        }
        false
    }

    /// Whether `other` is 4-adjacent (at distance `step` on one axis) to
    /// some coordinate of this block.
    pub fn is_next_to(&self, other: Coord, step: i32) -> (r: bool)
        requires
            1 <= step,
        ensures
            r == exists|y: Coord| self.has(y) && adjacent(y, other, step as int),
    {
        let (x, y) = other;
        let mut r = false;
        if let Some(xl) = x.checked_sub(step) {
            if self.contains_coord((xl, y)) {
                proof {
                    assert(adjacent((xl, y), other, step as int));
                }
                r = true;
            }
        }
        if let Some(xr) = x.checked_add(step) {
            if self.contains_coord((xr, y)) {
                proof {
                    assert(adjacent((xr, y), other, step as int));
                }
                r = true;
            }
        }
        if let Some(yu) = y.checked_sub(step) {
            if self.contains_coord((x, yu)) {
                proof {
                    assert(adjacent((x, yu), other, step as int));
                }
                r = true;
            }
        }
        if let Some(yd) = y.checked_add(step) {
            if self.contains_coord((x, yd)) {
                proof {
                    assert(adjacent((x, yd), other, step as int));
                }
                r = true;
            }
        }
        proof {
            if !r {
                assert forall|z: Coord| self.has(z) implies !adjacent(z, other, step as int) by {
                    if z.1 == other.1 && z.0 as int + step as int == other.0 as int {
                        assert(z.0 as int == other.0 as int - step as int);
                    } else if z.1 == other.1 && other.0 as int + step as int == z.0 as int {
                        assert(z.0 as int == other.0 as int + step as int);
                    } else if z.0 == other.0 && z.1 as int + step as int == other.1 as int {
                        assert(z.1 as int == other.1 as int - step as int);
                    } else if z.0 == other.0 && other.1 as int + step as int == z.1 as int {
                        assert(z.1 as int == other.1 as int + step as int);
                    }
                }
            }
        }
        r
    }
}

/// The segmented program: an ordered block list covering the whole sampled
/// grid, together with the grid's dimensions and codel size.
pub struct Blocks {
    pub blocks: Vec<Block>,
    pub width: i32,
    pub height: i32,
    pub codel_size: i32,
}

impl Blocks {
    /// Grid dimensions a segmentation can be built over: a positive codel
    /// size, and bounds that keep coordinate arithmetic and codel counts
    /// inside `i32`.
    pub open spec fn dims_ok(self) -> bool {
        &&& 1 <= self.codel_size
        &&& 0 <= self.width
        &&& 0 <= self.height
        &&& (self.width as int) * (self.height as int) <= i32::MAX as int
        &&& self.width as int + self.codel_size as int <= i32::MAX
        &&& self.height as int + self.codel_size as int <= i32::MAX
    }

    /// Whether `c` is a sampled coordinate: inside the image and a multiple
    /// of the codel size on both axes.
    pub open spec fn grid_has(self, c: Coord) -> bool {
        grid_member(self.width as int, self.height as int, self.codel_size as int, c)
    }

    /// No two distinct blocks of the same color type touch: same-type
    /// 4-adjacent coordinates always lie in the same block. Together with
    /// `wf` this pins the partition down to the connected components of the
    /// sampled grid.
    pub open spec fn joined(self) -> bool {
        forall|i: int, j: int, c1: Coord, c2: Coord|
            0 <= i < self.blocks@.len() && 0 <= j < self.blocks@.len()
                && #[trigger] self.blocks@[i].has(c1) && #[trigger] self.blocks@[j].has(c2)
                && self.blocks@[i].t == self.blocks@[j].t
                && adjacent(c1, c2, self.codel_size as int)
            ==> i == j
    }

    /// Every coordinate's block carries exactly the palette entry of the
    /// pixel sampled there.
    pub open spec fn typed(self, pixels: Seq<(u8, u8, u8)>) -> bool {
        forall|i: int, c: Coord|
            0 <= i < self.blocks@.len() && #[trigger] self.blocks@[i].has(c)
            ==> classify_at(pixels, self.width as int, c) == Some(self.blocks@[i].t)
    }

    /// The block at position `i` is internally valid: nonempty, duplicate
    /// free, inside the grid, and 4-connected.
    pub open spec fn block_ok(self, i: int) -> bool {
        let b = self.blocks@[i];
        &&& b.coords@.len() >= 1
        &&& b.coords@.no_duplicates()
        &&& (forall|c: Coord| b.has(c) ==> self.grid_has(c))
        &&& connected(b.coords@, self.codel_size as int)
    }

    /// Every sampled coordinate lies in some block.
    pub open spec fn covers(self) -> bool {
        forall|c: Coord| #[trigger] self.grid_has(c)
            ==> exists|i: int| 0 <= i < self.blocks@.len() && #[trigger] self.blocks@[i].has(c)
    }

    /// No coordinate lies in two blocks.
    pub open spec fn blocks_disjoint(self) -> bool {
        forall|i: int, j: int, c: Coord|
            0 <= i < self.blocks@.len() && 0 <= j < self.blocks@.len()
                && #[trigger] self.blocks@[i].coords@.contains(c)
                && #[trigger] self.blocks@[j].coords@.contains(c)
            ==> i == j
    }

    /// The segmentation invariant: the blocks partition the sampled grid
    /// into valid connected regions.
    pub open spec fn wf(self) -> bool {
        &&& self.dims_ok()
        &&& (forall|i: int| 0 <= i < self.blocks@.len() ==> #[trigger] self.block_ok(i))
        &&& self.covers()
        &&& self.blocks_disjoint()
    }

    /// Two blocks can only share a coordinate if they are the same entry.
    pub proof fn lemma_unique_block(self, i: int, j: int, c: Coord)
        requires
            self.blocks_disjoint(),
            0 <= i < self.blocks@.len(),
            0 <= j < self.blocks@.len(),
            self.blocks@[i].has(c),
            self.blocks@[j].has(c),
        ensures
            i == j,
    {
        assert(self.blocks@[i].coords@.contains(c));
        assert(self.blocks@[j].coords@.contains(c));
    }

    /// Whether some block holds `c`.
    pub open spec fn has_block(self, c: Coord) -> bool {
        exists|i: int| 0 <= i < self.blocks@.len() && #[trigger] self.blocks@[i].has(c)
    }

    /// The index of the block holding `c` (meaningful when `has_block(c)`
    /// and the blocks are disjoint).
    pub open spec fn idx_of(self, c: Coord) -> int {
        choose|i: int| 0 <= i < self.blocks@.len() && #[trigger] self.blocks@[i].has(c)
    }

    /// The block holding `c`.
    pub open spec fn block_of(self, c: Coord) -> Block {
        self.blocks@[self.idx_of(c)]
    }

    /// The number of blocks.
    pub fn len(&self) -> (r: usize)
        ensures
            r == self.blocks@.len(),
    {
        self.blocks.len()
    }

    /// Looks up the block holding the given coordinate, if any.
    pub fn find_block_from_index(&self, crd: &Coord) -> (r: Option<&Block>)
        requires
            self.blocks_disjoint(),
        ensures
            match r {
                Some(b) => self.has_block(*crd) && *b == self.block_of(*crd),
                None => !self.has_block(*crd),
            },
    {
        let mut i: usize = 0;
        while i < self.blocks.len()
            invariant
                self.blocks_disjoint(),
                i <= self.blocks@.len(),
                forall|k: int| 0 <= k < i ==> !(#[trigger] self.blocks@[k]).has(*crd),
            decreases self.blocks@.len() - i,
        {
            if self.blocks[i].contains_coord(*crd) {
                proof {
                    assert(self.blocks@[i as int].has(*crd));
                    assert(self.has_block(*crd));
                    let j = self.idx_of(*crd);
                    assert(0 <= j < self.blocks@.len() && self.blocks@[j].has(*crd));
                    self.lemma_unique_block(j, i as int, *crd);
                }
                return Some(&self.blocks[i]);
            }
            i += 1;
        }
        None
    }

    /// How many coordinates the sampler visits along an axis of the given
    /// pixel extent, stepping by the codel size.
    pub open spec fn samples_along(extent: int, step: int) -> int {
        if extent <= 0 {
            0
        } else {
            (extent - 1) / step + 1
        }
    }

    /// The number of sampled codels in the grid.
    pub open spec fn codel_count(self) -> int {
        Self::samples_along(self.width as int, self.codel_size as int)
            * Self::samples_along(self.height as int, self.codel_size as int)
    }

    /// Counts the sampled codels of the grid.
    pub fn count_codels(&self) -> (r: usize)
        requires
            self.dims_ok(),
        ensures
            r as int == self.codel_count(),
    {
        if self.width <= 0 || self.height <= 0 {
            return 0;
        }
        let cols = ((self.width - 1) / self.codel_size) as usize + 1;
        let rows = ((self.height - 1) / self.codel_size) as usize + 1;
        proof {
            assert((cols as int) * (rows as int) <= (self.width as int) * (self.height as int))
                by (nonlinear_arith)
                requires
                    1 <= cols as int && cols as int <= self.width as int,
                    1 <= rows as int && rows as int <= self.height as int,
            {}
        }
        cols * rows
    }
}

/// Partition law: under `wf`, every sampled coordinate belongs to exactly
/// one block — at least one by coverage, at most one by disjointness.
pub proof fn lemma_partition(bs: Blocks, c: Coord)
    requires
        bs.wf(),
        bs.grid_has(c),
    ensures
        exists|i: int| 0 <= i < bs.blocks@.len() && #[trigger] bs.blocks@[i].has(c),
        forall|i: int, j: int|
            0 <= i < bs.blocks@.len() && 0 <= j < bs.blocks@.len()
                && #[trigger] bs.blocks@[i].has(c) && #[trigger] bs.blocks@[j].has(c)
            ==> i == j,
{
    assert forall|i: int, j: int|
        0 <= i < bs.blocks@.len() && 0 <= j < bs.blocks@.len()
            && #[trigger] bs.blocks@[i].has(c) && #[trigger] bs.blocks@[j].has(c)
        implies i == j by {
        assert(bs.blocks@[i].coords@.contains(c));
        assert(bs.blocks@[j].coords@.contains(c));
    }
}

/// Connectivity law: under `wf`, every coordinate in a block reaches every
/// other through a path of that block's own coordinates, one codel-size step
/// on one axis at a time.
pub proof fn lemma_block_connectivity(bs: Blocks, i: int, a: Coord, b: Coord)
    requires
        bs.wf(),
        0 <= i < bs.blocks@.len(),
        bs.blocks@[i].has(a),
        bs.blocks@[i].has(b),
    ensures
        crate::conn::connected_pair(
            bs.blocks@[i].coords@,
            bs.codel_size as int,
            a,
            b,
        ),
{
    assert(bs.block_ok(i));
}

} // verus!
