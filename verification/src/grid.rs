//! The simulation grid: a bordered 2D field of cells, each either dead or
//! alive with a color, plus the per-cell spreading rule.
//!
//! Coordinates are `(row, col)`, 0-indexed. The outermost ring of the grid
//! is a permanent border: it is never alive and never becomes a spread
//! target, so every neighbor lookup from an interior cell stays in bounds.

use vstd::prelude::*;

use crate::color::{color_shifted, shift_color, Color};
use crate::rng::rand_below;

verus! {

/// Spread probabilities are fixed-point fractions of this scale:
/// a `spread_chance` of `SPREAD_CHANCE_SCALE` commits every attempt,
/// a `spread_chance` of 0 commits none.
pub const SPREAD_CHANCE_SCALE: u64 = 1_000_000;

/// A 2D field of cells with a liveness flag and a color per cell, stored
/// in two co-indexed row-major buffers, together with the immutable
/// simulation parameters.
///
/// `wf` is the intended invariant; every operation preserves it.
#[derive(Clone, Debug)]
pub struct Grid {
    /// Liveness per cell, row-major: cell `(y, x)` is at `y * width + x`.
    pub alive: Vec<bool>,
    /// Color per cell, co-indexed with `alive`; meaningful only where the
    /// cell is alive, zero elsewhere.
    pub colors: Vec<Color>,
    /// Number of columns, at least 3.
    pub width: usize,
    /// Number of rows, at least 3.
    pub height: usize,
    /// Largest per-channel color perturbation magnitude, exclusive.
    pub colorshift: u8,
    /// Probability that a live cell commits a spread in one sweep, as a
    /// fraction of `SPREAD_CHANCE_SCALE`.
    pub spread_chance: u64,
}

/// Whether `(ny, nx)` lies in the Moore neighborhood of `(y, x)`: at
/// Chebyshev distance exactly 1, i.e. one of the 8 surrounding cells.
pub open spec fn is_moore(y: int, x: int, ny: int, nx: int) -> bool {
    &&& y - 1 <= ny && ny <= y + 1
    &&& x - 1 <= nx && nx <= x + 1
    &&& !(ny == y && nx == x)
}

/// Whether `post` is `pre` with the single cell `(y, x)` made alive and
/// given color `c`, all parameters kept.
pub open spec fn placed(pre: Grid, post: Grid, y: int, x: int, c: Color) -> bool {
    &&& same_setup(pre, post)
    &&& post.alive@ == pre.alive@.update(pre.idx(y, x), true)
    &&& post.colors@ == pre.colors@.update(pre.idx(y, x), c)
}

/// Whether the two grids have the same dimensions and parameters.
pub open spec fn same_setup(pre: Grid, post: Grid) -> bool {
    &&& post.width == pre.width
    &&& post.height == pre.height
    &&& post.colorshift == pre.colorshift
    &&& post.spread_chance == pre.spread_chance
}

/// Whether some interior Moore neighbor of `(y, x)` is dead: the spreading
/// rule has room to grow from `(y, x)`.
pub open spec fn has_dead_neighbor(g: Grid, y: int, x: int) -> bool {
    exists|ny: int, nx: int|
        is_moore(y, x, ny, nx) && g.in_interior(ny, nx) && !g.alive_at(ny, nx)
}

impl Grid {
    /// The row-major buffer index of cell `(y, x)`.
    pub open spec fn idx(self, y: int, x: int) -> int {
        y * self.width + x
    }

    /// Whether `(y, x)` lies strictly inside the border ring.
    pub open spec fn in_interior(self, y: int, x: int) -> bool {
        &&& 1 <= y && y < self.height - 1
        &&& 1 <= x && x < self.width - 1
    }

    /// Liveness of cell `(y, x)`.
    pub open spec fn alive_at(self, y: int, x: int) -> bool {
        self.alive@[self.idx(y, x)]
    }

    /// Color of cell `(y, x)`.
    pub open spec fn color_at_spec(self, y: int, x: int) -> Color {
        self.colors@[self.idx(y, x)]
    }

    /// Well-formedness: the dimensions admit an interior, both buffers
    /// cover the whole field, the spread chance is a valid fraction, and
    /// every border cell is dead.
    pub open spec fn wf(self) -> bool {
        &&& 3 <= self.width
        &&& 3 <= self.height
        &&& self.width * self.height < usize::MAX
        &&& self.alive@.len() == self.width * self.height
        &&& self.colors@.len() == self.width * self.height
        &&& self.spread_chance <= SPREAD_CHANCE_SCALE
        &&& forall|y: int, x: int|
            0 <= y < self.height && 0 <= x < self.width && !self.in_interior(y, x)
                ==> !(#[trigger] self.alive_at(y, x))
    }
}

/// The row-major index of an in-bounds cell lies within the buffer.
pub proof fn lemma_idx_bounds(w: int, h: int, y: int, x: int)
    requires
        0 < w,
        0 <= y < h,
        0 <= x < w,
    ensures
        0 <= y * w + x,
        y * w + x < w * h,
{
    assert(0 <= y * w + x && y * w + x < w * h) by (nonlinear_arith)
        requires
            0 < w,
            0 <= y < h,
            0 <= x < w,
    ;
}

/// Row-major indexing is injective over in-bounds cells.
pub proof fn lemma_idx_injective(w: int, y1: int, x1: int, y2: int, x2: int)
    requires
        0 < w,
        0 <= x1 < w,
        0 <= x2 < w,
        y1 * w + x1 == y2 * w + x2,
    ensures
        y1 == y2,
        x1 == x2,
{
    assert(y1 == y2 && x1 == x2) by (nonlinear_arith)
        requires
            0 < w,
            0 <= x1 < w,
            0 <= x2 < w,
            y1 * w + x1 == y2 * w + x2,
    ;
}

impl Grid {
    /// Builds a grid of the given dimensions with every cell dead and
    /// zero-colored. The dimensions must admit at least a 1x1 interior,
    /// and the field must fit in memory.
    pub fn new(width: usize, height: usize, colorshift: u8, spread_chance: u64) -> (g: Grid)
        requires
            3 <= width,
            3 <= height,
            width * height < usize::MAX,
            spread_chance <= SPREAD_CHANCE_SCALE,
        ensures
            g.wf(),
            g.width == width,
            g.height == height,
            g.colorshift == colorshift,
            g.spread_chance == spread_chance,
            forall|y: int, x: int|
                0 <= y < height && 0 <= x < width ==> !(#[trigger] g.alive_at(y, x)),
            forall|y: int, x: int|
                0 <= y < height && 0 <= x < width
                    ==> #[trigger] g.color_at_spec(y, x) == (Color { red: 0, green: 0, blue: 0 }),
    {
        let n = width * height;
        let mut alive: Vec<bool> = Vec::new();
        let mut colors: Vec<Color> = Vec::new();
        let mut i: usize = 0;
        while i < n
            invariant
                i <= n,
                alive@.len() == i,
                colors@.len() == i,
                forall|j: int| 0 <= j < i ==> !(#[trigger] alive@[j]),
                forall|j: int|
                    0 <= j < i ==> #[trigger] colors@[j] == (Color { red: 0, green: 0, blue: 0 }),
            decreases n - i,
        {
            alive.push(false);
            colors.push(Color::zero());
            i += 1;
        }
        let g = Grid { alive, colors, width, height, colorshift, spread_chance };
        proof {
            assert forall|y: int, x: int| 0 <= y < height && 0 <= x < width implies !(
            #[trigger] g.alive_at(y, x)) by {
                lemma_idx_bounds(width as int, height as int, y, x);
            };
            assert forall|y: int, x: int| 0 <= y < height && 0 <= x < width implies #[trigger] g
                .color_at_spec(y, x) == (Color { red: 0, green: 0, blue: 0 }) by {
                lemma_idx_bounds(width as int, height as int, y, x);
            };
        }
        g
    }

    /// Reports whether cell `(y, x)` is alive.
    pub fn is_alive(&self, y: usize, x: usize) -> (r: bool)
        requires
            self.wf(),
            y < self.height,
            x < self.width,
        ensures
            r == self.alive_at(y as int, x as int),
    {
        proof {
            lemma_idx_bounds(self.width as int, self.height as int, y as int, x as int);
        }
        let i = y * self.width + x;
        self.alive[i]
    }

    /// Reads the color of cell `(y, x)`.
    pub fn color_at(&self, y: usize, x: usize) -> (c: Color)
        requires
            self.wf(),
            y < self.height,
            x < self.width,
        ensures
            c == self.color_at_spec(y as int, x as int),
    {
        proof {
            lemma_idx_bounds(self.width as int, self.height as int, y as int, x as int);
        }
        let i = y * self.width + x;
        self.colors[i]
    }

    /// Makes cell `(y, x)` alive with the given color, leaving every other
    /// cell untouched. Placing onto a cell that is already alive simply
    /// overwrites its color and keeps it alive. Only interior cells may be
    /// placed: the border ring stays dead forever.
    pub fn place_cell(&mut self, y: usize, x: usize, color: Color)
        requires
            old(self).wf(),
            old(self).in_interior(y as int, x as int),
        ensures
            final(self).wf(),
            placed(*old(self), *final(self), y as int, x as int, color),
    {
        proof {
            lemma_idx_bounds(self.width as int, self.height as int, y as int, x as int);
        }
        let i = y * self.width + x;
        self.alive.set(i, true);
        self.colors.set(i, color);
        proof {
            let w = self.width as int;
            let h = self.height as int;
            assert forall|yy: int, xx: int|
                0 <= yy < h && 0 <= xx < w && !self.in_interior(yy, xx) implies !(
            #[trigger] self.alive_at(yy, xx)) by {
                lemma_idx_bounds(w, h, yy, xx);
                if yy * w + xx == y * w + x {
                    lemma_idx_injective(w, yy, xx, y as int, x as int);
                } else {
                    assert(!old(self).alive_at(yy, xx));
                }
            };
        }
    }

    /// Places a cell with a uniformly random color at a uniformly random
    /// interior coordinate. A coordinate that is already alive may be drawn
    /// again: the cell then stays alive and only its color is replaced.
    pub fn spawn_random_orphan(&mut self, rng: &mut rand::rngs::StdRng) -> (pos: (usize, usize))
        requires
            old(self).wf(),
        ensures
            final(self).wf(),
            same_setup(*old(self), *final(self)),
            old(self).in_interior(pos.0 as int, pos.1 as int),
            exists|c: Color| placed(*old(self), *final(self), pos.0 as int, pos.1 as int, c),
    {
        let y = 1 + rand_below(rng, (self.height - 2) as u64) as usize;
        let x = 1 + rand_below(rng, (self.width - 2) as u64) as usize;
        let c = Color::random(rng);
        self.place_cell(y, x, c);
        proof {
            assert(placed(*old(self), *self, y as int, x as int, c));
        }
        (y, x)
    }

    /// Collects the dead interior cells in the Moore neighborhood of the
    /// interior cell `(y, x)`: exactly the coordinates the spreading rule
    /// may grow into, each listed once. Border cells are never included,
    /// and neither is `(y, x)` itself.
    pub fn dead_neighbors(&self, y: usize, x: usize) -> (r: Vec<(usize, usize)>)
        requires
            self.wf(),
            self.in_interior(y as int, x as int),
        ensures
            forall|i: int|
                0 <= i < r@.len() ==> is_moore(
                    y as int,
                    x as int,
                    (#[trigger] r@[i]).0 as int,
                    r@[i].1 as int,
                ),
            forall|i: int|
                0 <= i < r@.len() ==> self.in_interior(
                    (#[trigger] r@[i]).0 as int,
                    r@[i].1 as int,
                ),
            forall|i: int|
                0 <= i < r@.len() ==> !self.alive_at((#[trigger] r@[i]).0 as int, r@[i].1 as int),
            forall|ny: int, nx: int|
                is_moore(y as int, x as int, ny, nx) && self.in_interior(ny, nx) && !(
                #[trigger] self.alive_at(ny, nx)) ==> r@.contains((ny as usize, nx as usize)),
            forall|i: int, j: int| 0 <= i < j < r@.len() ==> r@[i] != r@[j],
    {
        let mut cand: Vec<(usize, usize)> = Vec::new();
        cand.push((y - 1, x - 1));
        cand.push((y - 1, x));
        cand.push((y - 1, x + 1));
        cand.push((y, x - 1));
        cand.push((y, x + 1));
        cand.push((y + 1, x - 1));
        cand.push((y + 1, x));
        cand.push((y + 1, x + 1));
        proof {
            assert(cand@.len() == 8);
            assert(forall|j1: int, j2: int| 0 <= j1 < j2 < 8 ==> cand@[j1] != cand@[j2]);
            assert(forall|j: int|
                0 <= j < 8 ==> is_moore(
                    y as int,
                    x as int,
                    (#[trigger] cand@[j]).0 as int,
                    cand@[j].1 as int,
                ));
            assert forall|ny: int, nx: int|
                is_moore(y as int, x as int, ny, nx) && self.in_interior(
                    ny,
                    nx,
                ) implies exists|j: int|
                0 <= j < 8 && #[trigger] cand@[j] == ((ny as usize, nx as usize)) by {
                let p = (ny as usize, nx as usize);
                if ny == y - 1 && nx == x - 1 {
                    assert(cand@[0] == p);
                } else if ny == y - 1 && nx == x {
                    assert(cand@[1] == p);
                } else if ny == y - 1 && nx == x + 1 {
                    assert(cand@[2] == p);
                } else if ny == y && nx == x - 1 {
                    assert(cand@[3] == p);
                } else if ny == y && nx == x + 1 {
                    assert(cand@[4] == p);
                } else if ny == y + 1 && nx == x - 1 {
                    assert(cand@[5] == p);
                } else if ny == y + 1 && nx == x {
                    assert(cand@[6] == p);
                } else {
                    assert(cand@[7] == p);
                }
            };
        }
        let mut r: Vec<(usize, usize)> = Vec::new();
        let mut k: usize = 0;
        while k < 8
            invariant
                self.wf(),
                self.in_interior(y as int, x as int),
                k <= 8,
                cand@.len() == 8,
                forall|j1: int, j2: int| 0 <= j1 < j2 < 8 ==> cand@[j1] != cand@[j2],
                forall|j: int|
                    0 <= j < 8 ==> is_moore(
                        y as int,
                        x as int,
                        (#[trigger] cand@[j]).0 as int,
                        cand@[j].1 as int,
                    ),
                forall|ny: int, nx: int|
                    is_moore(y as int, x as int, ny, nx) && self.in_interior(ny, nx)
                        ==> exists|j: int|
                        0 <= j < 8 && #[trigger] cand@[j] == ((ny as usize, nx as usize)),
                forall|i: int|
                    0 <= i < r@.len() ==> exists|j: int| 0 <= j < k && cand@[j] == #[trigger] r@[i],
                forall|i: int|
                    0 <= i < r@.len() ==> self.in_interior(
                        (#[trigger] r@[i]).0 as int,
                        r@[i].1 as int,
                    ),
                forall|i: int|
                    0 <= i < r@.len() ==> !self.alive_at(
                        (#[trigger] r@[i]).0 as int,
                        r@[i].1 as int,
                    ),
                forall|j: int|
                    0 <= j < k && self.in_interior(
                        (#[trigger] cand@[j]).0 as int,
                        cand@[j].1 as int,
                    ) && !self.alive_at(cand@[j].0 as int, cand@[j].1 as int) ==> r@.contains(
                        cand@[j],
                    ),
                forall|i1: int, i2: int| 0 <= i1 < i2 < r@.len() ==> r@[i1] != r@[i2],
            decreases 8 - k,
        {
            let (ny, nx) = cand[k];
            if self.is_interior(ny, nx) {
                if !self.is_alive(ny, nx) {
                    proof {
                        assert forall|i: int| 0 <= i < r@.len() implies #[trigger] r@[i] != (
                        ny,
                        nx,
                        ) by {
                            let j = choose|j: int| 0 <= j < k && cand@[j] == r@[i];
                            assert(cand@[j] != cand@[k as int]);
                        };
                    }
                    let ghost r_old = r@;
                    r.push((ny, nx));
                    proof {
                        assert forall|p: (usize, usize)| r_old.contains(p) implies r@.contains(
                            p,
                        ) by {
                            let i = choose|i: int| 0 <= i < r_old.len() && r_old[i] == p;
                            assert(r@[i] == p);
                        };
                        assert(r@[r_old.len() as int] == (ny, nx));
                        assert(r@.contains((ny, nx)));
                    }
                }
            }
            k += 1;
        }
        proof {
            assert forall|ny: int, nx: int|
                is_moore(y as int, x as int, ny, nx) && self.in_interior(ny, nx) && !(
                #[trigger] self.alive_at(ny, nx)) implies r@.contains(
                (ny as usize, nx as usize),
            ) by {
                let j = choose|j: int|
                    0 <= j < 8 && #[trigger] cand@[j] == ((ny as usize, nx as usize));
                assert(cand@[j].0 as int == ny && cand@[j].1 as int == nx);
                assert(r@.contains(cand@[j]));
            };
        }
        r
    }

    /// One spread attempt by the cell at the interior coordinate `(y, x)`:
    /// picks one of its dead interior Moore neighbors uniformly at random
    /// (a no-op if there is none), then commits with probability
    /// `spread_chance`. A committed spread makes the chosen neighbor alive
    /// with a perturbed copy of this cell's color. The neighbor is chosen
    /// before the probability draw, so a rejected attempt still consumes
    /// both draws.
    ///
    /// Liveness is monotonic: no cell ever goes from alive to dead. With a
    /// zero spread chance nothing ever commits; with a full spread chance
    /// the attempt commits whenever a dead interior neighbor exists.
    pub fn attempt_spread(&mut self, y: usize, x: usize, rng: &mut rand::rngs::StdRng) -> (committed:
        bool)
        requires
            old(self).wf(),
            old(self).in_interior(y as int, x as int),
        ensures
            final(self).wf(),
            same_setup(*old(self), *final(self)),
            final(self).alive@.len() == old(self).alive@.len(),
            forall|i: int|
                0 <= i < old(self).alive@.len() && old(self).alive@[i] ==> final(self).alive@[i],
            !committed ==> *final(self) == *old(self),
            committed ==> exists|ny: int, nx: int, c: Color|
                is_moore(y as int, x as int, ny, nx) && old(self).in_interior(ny, nx) && !old(
                    self,
                ).alive_at(ny, nx) && color_shifted(
                    old(self).color_at_spec(y as int, x as int),
                    c,
                    old(self).colorshift,
                ) && placed(*old(self), *final(self), ny, nx, c),
            old(self).spread_chance == 0 ==> !committed,
            !has_dead_neighbor(*old(self), y as int, x as int) ==> !committed,
            old(self).spread_chance == SPREAD_CHANCE_SCALE && has_dead_neighbor(
                *old(self),
                y as int,
                x as int,
            ) ==> committed,
    {
        let deads = self.dead_neighbors(y, x);
        if deads.len() == 0 {
            proof {
                if has_dead_neighbor(*old(self), y as int, x as int) {
                    let (ny, nx) = choose|ny: int, nx: int|
                        is_moore(y as int, x as int, ny, nx) && old(self).in_interior(ny, nx)
                            && !old(self).alive_at(ny, nx);
                    assert(deads@.contains((ny as usize, nx as usize)));
                }
            }
            return false;
        }
        let pick = rand_below(rng, deads.len() as u64) as usize;
        let (ny, nx) = deads[pick];
        let roll = rand_below(rng, SPREAD_CHANCE_SCALE);
        if roll < self.spread_chance {
            let parent = self.color_at(y, x);
            let child = shift_color(parent, self.colorshift, rng);
            self.place_cell(ny, nx, child);
            proof {
                assert(is_moore(y as int, x as int, ny as int, nx as int) && old(self).in_interior(
                    ny as int,
                    nx as int,
                ) && !old(self).alive_at(ny as int, nx as int) && color_shifted(
                    old(self).color_at_spec(y as int, x as int),
                    child,
                    old(self).colorshift,
                ) && placed(*old(self), *self, ny as int, nx as int, child));
                assert forall|i: int|
                    0 <= i < old(self).alive@.len() && old(self).alive@[i] implies self.alive@[i] by {
                    lemma_idx_bounds(
                        old(self).width as int,
                        old(self).height as int,
                        ny as int,
                        nx as int,
                    );
                    let t = old(self).idx(ny as int, nx as int);
                    assert(self.alive@ == old(self).alive@.update(t, true));
                    if i != t {
                        assert(self.alive@[i] == old(self).alive@[i]);
                    }
                };
            }
            true
        } else {
            false
        }
    }

    /// Reports whether `(y, x)` lies strictly inside the border ring.
    pub fn is_interior(&self, y: usize, x: usize) -> (r: bool)
        requires
            self.wf(),
        ensures
            r == self.in_interior(y as int, x as int),
    {
        1 <= y && y < self.height - 1 && 1 <= x && x < self.width - 1
    }
}

} // verus!
