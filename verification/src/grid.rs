//! The grid model: directions, toroidal coordinate stepping, and the grid of
//! directional pointers itself.

use vstd::arithmetic::div_mod::{
    lemma_mod_add_multiples_vanish, lemma_mod_bound, lemma_mod_self_0, lemma_small_mod,
};
use vstd::prelude::*;

verus! {

/// A direction in 2-space, written with one of the glyphs `^ v < >`.
#[derive(Clone, Copy, PartialEq, Eq, Structural, Debug)]
pub enum Direction {
    /// North; written `^`. Moving up decreases the y coordinate.
    Up,
    /// South; written `v`. Moving down increases the y coordinate.
    Down,
    /// West; written `<`. Moving left decreases the x coordinate.
    Left,
    /// East; written `>`. Moving right increases the x coordinate.
    Right,
}

/// Whether `c` is one of the four direction glyphs.
pub open spec fn is_glyph(c: char) -> bool {
    c == '^' || c == 'v' || c == '<' || c == '>'
}

/// The direction written by glyph `c` (meaningful only when `is_glyph(c)`).
pub open spec fn dir_of_glyph(c: char) -> Direction {
    if c == '^' {
        Direction::Up
    } else if c == 'v' {
        Direction::Down
    } else if c == '<' {
        Direction::Left
    } else {
        Direction::Right
    }
}

/// The glyph that writes direction `d`.
pub open spec fn glyph_of_dir(d: Direction) -> char {
    match d {
        Direction::Up => '^',
        Direction::Down => 'v',
        Direction::Left => '<',
        Direction::Right => '>',
    }
}

impl Direction {
    /// Creates a new `Direction` from a glyph; `None` for any other character.
    pub fn from_glyph(c: char) -> (r: Option<Direction>)
        ensures
            r == if is_glyph(c) {
                Some(dir_of_glyph(c))
            } else {
                None::<Direction>
            },
    {
        match c {
            '^' => Some(Direction::Up),
            'v' => Some(Direction::Down),
            '<' => Some(Direction::Left),
            '>' => Some(Direction::Right),
            _ => None,
        }
    }

    /// Gets the glyph representation of this `Direction`.
    pub fn to_glyph(&self) -> (r: char)
        ensures
            r == glyph_of_dir(*self),
    {
        match *self {
            Direction::Up => '^',
            Direction::Down => 'v',
            Direction::Left => '<',
            Direction::Right => '>',
        }
    }
}

/// Mathematical wrap-around stepping: the position `delta` away from `pos` on
/// a circle of size `dim`, as the non-negative remainder of `pos + delta`.
pub open spec fn step_spec(pos: int, delta: int, dim: int) -> int
    recommends
        dim > 0,
{
    (pos + delta) % dim
}

/// Steps `pos` by `delta` on an axis of size `dimension`, wrapping at both
/// ends: the result is the mathematically correct (non-negative) value of
/// `(pos + delta) mod dimension`, so no boundary case is ever an error.
pub fn step(pos: usize, delta: isize, dimension: usize) -> (r: usize)
    requires
        0 < dimension,
        pos < dimension,
        -(dimension as int) <= pos as int + delta as int,
        pos as int + delta as int <= usize::MAX as int,
    ensures
        r as int == step_spec(pos as int, delta as int, dimension as int),
        r < dimension,
{
    proof {
        lemma_mod_bound(pos as int + delta as int, dimension as int);
    }
    if delta >= 0 {
        let d = delta as usize;
        (pos + d) % dimension
    } else {
        // nd == -delta, computed without negating isize::MIN
        let nd = ((-(delta + 1)) as usize) + 1;
        if nd <= pos {
            proof {
                lemma_small_mod((pos - nd) as nat, dimension as nat);
            }
            pos - nd
        } else {
            proof {
                lemma_mod_add_multiples_vanish(pos as int + delta as int, dimension as int);
                lemma_small_mod((dimension as int + pos - nd) as nat, dimension as nat);
            }
            dimension - (nd - pos)
        }
    }
}

/// Totality of stepping: for every dimension `dim > 0` and every position and
/// delta, the stepped position lies in `[0, dim)`.
pub proof fn lemma_step_total(pos: int, delta: int, dim: int)
    requires
        0 < dim,
    ensures
        0 <= step_spec(pos, delta, dim) < dim,
{
    lemma_mod_bound(pos + delta, dim);
}

/// Wrap correctness: stepping left from position 0 yields `dim - 1`, and
/// stepping right from the last position yields 0, for every `dim > 0`.
pub proof fn lemma_step_wrap(dim: int)
    requires
        0 < dim,
    ensures
        step_spec(0, -1, dim) == dim - 1,
        step_spec(dim - 1, 1, dim) == 0,
{
    lemma_mod_add_multiples_vanish(-1, dim);
    lemma_small_mod((dim - 1) as nat, dim as nat);
    lemma_mod_self_0(dim);
}

/// The input graph: its purported bounds and the grid of directional
/// pointers between its cells, in row-major order (`pointers[y][x]`).
pub struct GraphMeta {
    pub width: usize,
    pub height: usize,
    /// the directional pointers between nodes in the graph, one row of
    /// `width` directions for each of the `height` rows
    pub pointers: Vec<Vec<Direction>>,
}

impl GraphMeta {
    /// Well-formedness: the pointer table is rectangular with exactly
    /// `height` rows of exactly `width` entries each.
    pub open spec fn wf(self) -> bool {
        &&& self.pointers@.len() == self.height
        &&& forall|i: int|
            0 <= i < self.pointers@.len() ==> (#[trigger] self.pointers@[i])@.len() == self.width
    }

    /// Whether `(x, y)` is a coordinate of this grid.
    pub open spec fn in_bounds(self, x: int, y: int) -> bool {
        0 <= x < self.width && 0 <= y < self.height
    }

    /// The direction stored at coordinate `(x, y)`.
    pub open spec fn dir_at(self, x: int, y: int) -> Direction {
        self.pointers@[y]@[x]
    }

    /// The coordinate reached from `(x, y)` by following the direction
    /// stored there, wrapping at the grid bounds.
    pub open spec fn neighbor_spec(self, x: int, y: int) -> (int, int) {
        match self.dir_at(x, y) {
            Direction::Up => (x, step_spec(y, -1, self.height as int)),
            Direction::Down => (x, step_spec(y, 1, self.height as int)),
            Direction::Left => (step_spec(x, -1, self.width as int), y),
            Direction::Right => (step_spec(x, 1, self.width as int), y),
        }
    }

    /// Reads the direction stored at `(x, y)` and applies `step` along the
    /// appropriate axis, returning the wrapped coordinate of the successor.
    pub fn neighbor_of(&self, x: usize, y: usize) -> (r: (usize, usize))
        requires
            self.wf(),
            x < self.width,
            y < self.height,
        ensures
            (r.0 as int, r.1 as int) == self.neighbor_spec(x as int, y as int),
            r.0 < self.width,
            r.1 < self.height,
    {
        match self.pointers[y][x] {
            Direction::Up => (x, step(y, -1, self.height)),
            Direction::Down => (x, step(y, 1, self.height)),
            Direction::Left => (step(x, -1, self.width), y),
            Direction::Right => (step(x, 1, self.width), y),
        }
    }
}

} // verus!
