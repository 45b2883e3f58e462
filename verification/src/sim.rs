//! The simulation driver: sweeps every interior coordinate in row-major
//! order, gives each live cell one spread attempt, and repeats until a
//! full sweep commits no spread. That test detects both completion and a
//! permanent stall, so the driver always terminates.

use vstd::prelude::*;

use crate::color::Color;
use crate::grid::{
    has_dead_neighbor, is_moore, lemma_idx_bounds, placed, same_setup, Grid, SPREAD_CHANCE_SCALE,
};

verus! {

/// The number of live cells in a liveness buffer.
pub open spec fn count_true(s: Seq<bool>) -> nat
    decreases s.len(),
{
    if s.len() == 0 {
        0
    } else {
        count_true(s.drop_last()) + if s.last() {
            1nat
        } else {
            0nat
        }
    }
}

/// A buffer never holds more live cells than entries.
pub proof fn lemma_count_true_le_len(s: Seq<bool>)
    ensures
        count_true(s) <= s.len(),
    decreases s.len(),
{
    if s.len() > 0 {
        lemma_count_true_le_len(s.drop_last());
    }
}

/// Making one cell alive raises the live count by one if the cell was
/// dead, and keeps it unchanged if the cell was already alive.
pub proof fn lemma_count_true_update(s: Seq<bool>, i: int)
    requires
        0 <= i < s.len(),
    ensures
        count_true(s.update(i, true)) == count_true(s) + if s[i] {
            0nat
        } else {
            1nat
        },
    decreases s.len(),
{
    let t = s.update(i, true);
    if i == s.len() - 1 {
        assert(t.drop_last() =~= s.drop_last());
    } else {
        assert(t.drop_last() =~= s.drop_last().update(i, true));
        lemma_count_true_update(s.drop_last(), i);
        assert(t.last() == s.last());
    }
}

/// Live counts add up across concatenation.
proof fn lemma_count_true_concat(a: Seq<bool>, b: Seq<bool>)
    ensures
        count_true(a + b) == count_true(a) + count_true(b),
    decreases b.len(),
{
    if b.len() == 0 {
        assert(a + b =~= a);
    } else {
        assert((a + b).drop_last() =~= a + b.drop_last());
        lemma_count_true_concat(a, b.drop_last());
        assert((a + b).last() == b.last());
    }
}

/// An all-dead buffer has a live count of zero.
proof fn lemma_count_true_zero_when_all_false(s: Seq<bool>)
    requires
        forall|i: int| 0 <= i < s.len() ==> !(#[trigger] s[i]),
    ensures
        count_true(s) == 0,
    decreases s.len(),
{
    if s.len() > 0 {
        lemma_count_true_zero_when_all_false(s.drop_last());
    }
}

/// A buffer with a dead entry holds at least one fewer live cell than
/// entries.
proof fn lemma_count_true_missing_one(s: Seq<bool>, i: int)
    requires
        0 <= i < s.len(),
        !s[i],
    ensures
        count_true(s) + 1 <= s.len(),
    decreases s.len(),
{
    if i == s.len() - 1 {
        lemma_count_true_le_len(s.drop_last());
    } else {
        lemma_count_true_missing_one(s.drop_last(), i);
    }
}

/// A buffer with two dead entries holds at least two fewer live cells
/// than entries.
proof fn lemma_count_true_missing_two(s: Seq<bool>, i: int, j: int)
    requires
        0 <= i < j < s.len(),
        !s[i],
        !s[j],
    ensures
        count_true(s) + 2 <= s.len(),
    decreases s.len(),
{
    if j == s.len() - 1 {
        lemma_count_true_missing_one(s.drop_last(), i);
    } else {
        lemma_count_true_missing_two(s.drop_last(), i, j);
    }
}

/// The largest live count the first `k` rows of a well-formed grid can
/// reach: nothing in the border rows, at most `w - 2` per interior row.
spec fn row_bound(w: int, h: int, k: int) -> int {
    if k <= 1 {
        0
    } else if k <= h - 1 {
        (k - 1) * (w - 2)
    } else {
        (h - 2) * (w - 2)
    }
}

/// The first `k` rows of a well-formed grid hold at most `row_bound`
/// live cells, because the border ring is dead.
proof fn lemma_rows_bound(g: Grid, k: int)
    requires
        g.wf(),
        0 <= k <= g.height,
    ensures
        count_true(g.alive@.subrange(0, k * g.width)) <= row_bound(
            g.width as int,
            g.height as int,
            k,
        ),
    decreases k,
{
    let w = g.width as int;
    let h = g.height as int;
    let s = g.alive@;
    assert(k * w <= w * h && 0 <= k * w) by (nonlinear_arith)
        requires
            0 <= k <= h,
            0 < w,
    ;
    if k == 0 {
        assert(k * w == 0) by (nonlinear_arith)
            requires
                k == 0,
        ;
        assert(s.subrange(0, k * w) =~= Seq::<bool>::empty());
        assert(count_true(s.subrange(0, k * w)) == 0);
        assert(row_bound(w, h, k) == 0);
    } else {
        let km1 = k - 1;
        lemma_rows_bound(g, km1);
        assert(km1 * w + w == k * w && 0 <= km1 * w) by (nonlinear_arith)
            requires
                0 <= km1,
                k == km1 + 1,
                0 < w,
        ;
        let prev = s.subrange(0, km1 * w);
        let row = s.subrange(km1 * w, k * w);
        assert(s.subrange(0, k * w) =~= prev + row);
        lemma_count_true_concat(prev, row);
        assert(row.len() == w);
        if km1 == 0 || km1 == h - 1 {
            assert forall|j: int| 0 <= j < row.len() implies !(#[trigger] row[j]) by {
                assert(row[j] == s[km1 * w + j]);
                assert(!g.alive_at(km1, j));
            };
            lemma_count_true_zero_when_all_false(row);
        } else {
            assert(!g.alive_at(km1, 0));
            assert(row[0] == s[km1 * w + 0]);
            assert(!g.alive_at(km1, w - 1));
            assert(row[w - 1] == s[km1 * w + (w - 1)]);
            lemma_count_true_missing_two(row, 0, w - 1);
        }
        assert(count_true(s.subrange(0, k * w)) == count_true(prev) + count_true(row));
        assert(count_true(prev) <= row_bound(w, h, km1));
        if km1 == 0 {
            assert(count_true(row) == 0);
            assert(row_bound(w, h, k) == 0);
        } else if km1 == h - 1 {
            assert(count_true(row) == 0);
            assert(row_bound(w, h, km1) == (h - 2) * (w - 2));
            assert(row_bound(w, h, k) == (h - 2) * (w - 2));
        } else {
            assert(count_true(row) <= w - 2);
            assert(row_bound(w, h, k) == (k - 1) * (w - 2));
            if km1 == 1 {
                assert(row_bound(w, h, km1) == 0);
                assert((k - 1) * (w - 2) == w - 2) by (nonlinear_arith)
                    requires
                        k == 2,
                ;
            } else {
                assert(row_bound(w, h, km1) == (km1 - 1) * (w - 2));
                assert((km1 - 1) * (w - 2) + (w - 2) == (k - 1) * (w - 2)) by (nonlinear_arith)
                    requires
                        k == km1 + 1,
                ;
            }
            assert(row_bound(w, h, km1) + (w - 2) <= row_bound(w, h, k));
        }
    }
}

/// In a well-formed grid every live cell is interior, so the live count
/// never exceeds the interior area.
pub proof fn lemma_live_cells_fit_interior(g: Grid)
    requires
        g.wf(),
    ensures
        count_true(g.alive@) <= (g.width - 2) * (g.height - 2),
{
    let w = g.width as int;
    let h = g.height as int;
    lemma_rows_bound(g, h);
    assert(h * w == w * h) by (nonlinear_arith);
    assert(g.alive@.subrange(0, h * w) =~= g.alive@);
}

/// Liveness monotonicity composes across successive steps: if no live
/// cell dies from `a` to `b`, nor from `b` to `c`, then across the whole
/// sequence no cell that was alive ever becomes dead.
pub proof fn lemma_liveness_monotonic_trans(a: Seq<bool>, b: Seq<bool>, c: Seq<bool>)
    requires
        a.len() == b.len(),
        b.len() == c.len(),
        forall|i: int| 0 <= i < a.len() && #[trigger] a[i] ==> b[i],
        forall|i: int| 0 <= i < b.len() && #[trigger] b[i] ==> c[i],
    ensures
        forall|i: int| 0 <= i < a.len() && #[trigger] a[i] ==> c[i],
{
}

/// A grid in which no live interior cell has a dead interior neighbor:
/// the spreading process can never commit again, whether because the
/// interior is fully alive or because it is permanently stuck.
pub open spec fn settled(g: Grid) -> bool {
    forall|y: int, x: int|
        g.in_interior(y, x) && #[trigger] g.alive_at(y, x) ==> !has_dead_neighbor(g, y, x)
}

/// The cells already visited by a row-major sweep that stands at column
/// `x_lim` of row `y_lim`: all rows above, and the columns left of
/// `x_lim` in the current row. Holds when none of those cells, if alive,
/// had room to spread.
spec fn prefix_settled(g: Grid, y_lim: int, x_lim: int) -> bool {
    forall|py: int, px: int|
        g.in_interior(py, px) && (py < y_lim || (py == y_lim && px < x_lim)) && #[trigger] g
            .alive_at(py, px) ==> !has_dead_neighbor(g, py, px)
}

/// One full sweep: visits every interior coordinate in row-major order
/// and gives each cell that is alive at its visit one spread attempt.
/// Spreads committed early in a sweep are visible to later coordinates
/// of the same sweep. Returns whether any spread was committed.
///
/// A sweep that commits nothing leaves the grid exactly as it was; one
/// that commits something strictly raises the number of live cells. With
/// a full spread chance, a sweep that commits nothing certifies that no
/// live interior cell had a dead interior neighbor to begin with.
pub fn sweep(grid: &mut Grid, rng: &mut rand::rngs::StdRng) -> (committed: bool)
    requires
        old(grid).wf(),
    ensures
        final(grid).wf(),
        same_setup(*old(grid), *final(grid)),
        final(grid).alive@.len() == old(grid).alive@.len(),
        forall|i: int|
            0 <= i < old(grid).alive@.len() && #[trigger] old(grid).alive@[i]
                ==> final(grid).alive@[i],
        !committed ==> *final(grid) == *old(grid),
        committed ==> count_true(final(grid).alive@) > count_true(old(grid).alive@),
        old(grid).spread_chance == 0 ==> !committed,
        old(grid).spread_chance == SPREAD_CHANCE_SCALE && !committed ==> settled(*old(grid)),
{
    let mut any = false;
    let h = grid.height;
    let w = grid.width;
    let mut yy: usize = 1;
    while yy < h - 1
        invariant
            grid.wf(),
            grid.height == h,
            grid.width == w,
            same_setup(*old(grid), *grid),
            grid.alive@.len() == old(grid).alive@.len(),
            1 <= yy <= h - 1,
            forall|i: int|
                0 <= i < old(grid).alive@.len() && #[trigger] old(grid).alive@[i]
                    ==> grid.alive@[i],
            !any ==> *grid == *old(grid),
            any ==> count_true(grid.alive@) > count_true(old(grid).alive@),
            old(grid).spread_chance == 0 ==> !any,
            old(grid).spread_chance == SPREAD_CHANCE_SCALE && !any ==> prefix_settled(
                *old(grid),
                yy as int,
                1,
            ),
        decreases h - 1 - yy,
    {
        let mut xx: usize = 1;
        while xx < w - 1
            invariant
                grid.wf(),
                grid.height == h,
                grid.width == w,
                same_setup(*old(grid), *grid),
                grid.alive@.len() == old(grid).alive@.len(),
                1 <= yy < h - 1,
                1 <= xx <= w - 1,
                forall|i: int|
                    0 <= i < old(grid).alive@.len() && #[trigger] old(grid).alive@[i]
                        ==> grid.alive@[i],
                !any ==> *grid == *old(grid),
                any ==> count_true(grid.alive@) > count_true(old(grid).alive@),
                old(grid).spread_chance == 0 ==> !any,
                old(grid).spread_chance == SPREAD_CHANCE_SCALE && !any ==> prefix_settled(
                    *old(grid),
                    yy as int,
                    xx as int,
                ),
            decreases w - 1 - xx,
        {
            if grid.is_alive(yy, xx) {
                let ghost prev = *grid;
                let c = grid.attempt_spread(yy, xx, rng);
                if c {
                    proof {
                        let (ny, nx, cc): (int, int, Color) = choose|ny: int, nx: int, cc: Color|
                            is_moore(yy as int, xx as int, ny, nx) && prev.in_interior(ny, nx)
                                && !prev.alive_at(ny, nx) && crate::color::color_shifted(
                                prev.color_at_spec(yy as int, xx as int),
                                cc,
                                prev.colorshift,
                            ) && placed(prev, *grid, ny, nx, cc);
                        lemma_idx_bounds(prev.width as int, prev.height as int, ny, nx);
                        let t = prev.idx(ny, nx);
                        lemma_count_true_update(prev.alive@, t);
                        assert(count_true(grid.alive@) == count_true(prev.alive@) + 1);
                        assert forall|i: int|
                            0 <= i < old(grid).alive@.len() && #[trigger] old(grid).alive@[i] implies grid.alive@[i] by {
                            if i != t {
                                assert(grid.alive@[i] == prev.alive@[i]);
                            }
                        };
                    }
                    any = true;
                } else {
                    proof {
                        if grid.spread_chance == SPREAD_CHANCE_SCALE && !any {
                            assert(*grid == prev);
                            assert(!has_dead_neighbor(prev, yy as int, xx as int));
                            assert forall|py: int, px: int|
                                old(grid).in_interior(py, px) && (py < yy as int || (py
                                    == yy as int && px < xx as int + 1)) && #[trigger] old(
                                    grid,
                                ).alive_at(py, px) implies !has_dead_neighbor(
                                *old(grid),
                                py,
                                px,
                            ) by {
                                if !(py == yy as int && px == xx as int) {
                                    assert(prefix_settled(*old(grid), yy as int, xx as int));
                                }
                            };
                        }
                    }
                }
            } else {
                proof {
                    if grid.spread_chance == SPREAD_CHANCE_SCALE && !any {
                        assert forall|py: int, px: int|
                            old(grid).in_interior(py, px) && (py < yy as int || (py == yy as int
                                && px < xx as int + 1)) && #[trigger] old(grid).alive_at(
                                py,
                                px,
                            ) implies !has_dead_neighbor(*old(grid), py, px) by {
                            if !(py == yy as int && px == xx as int) {
                                assert(prefix_settled(*old(grid), yy as int, xx as int));
                            }
                        };
                    }
                }
            }
            xx += 1;
        }
        proof {
            if grid.spread_chance == SPREAD_CHANCE_SCALE && !any {
                assert forall|py: int, px: int|
                    old(grid).in_interior(py, px) && (py < yy as int + 1 || (py == yy as int + 1
                        && px < 1)) && #[trigger] old(grid).alive_at(py, px) implies !has_dead_neighbor(
                    *old(grid),
                    py,
                    px,
                ) by {
                    assert(prefix_settled(*old(grid), yy as int, xx as int));
                };
            }
        }
        yy += 1;
    }
    proof {
        if grid.spread_chance == SPREAD_CHANCE_SCALE && !any {
            assert forall|py: int, px: int|
                old(grid).in_interior(py, px) && #[trigger] old(grid).alive_at(
                    py,
                    px,
                ) implies !has_dead_neighbor(*old(grid), py, px) by {
                assert(prefix_settled(*old(grid), yy as int, 1));
            };
        }
    }
    any
}

/// Runs sweeps until one commits no spread, and returns how many sweeps
/// ran, the final non-committing one included. The loop always
/// terminates: every other sweep strictly raises the number of live
/// cells, which is bounded by the size of the field, so the number of
/// sweeps is at most one more than the number of initially dead cells.
///
/// With a zero spread chance the grid comes back exactly as it went in,
/// after a single sweep. With a full spread chance the final grid is
/// settled: every interior cell is alive, or permanently out of reach.
pub fn run(grid: &mut Grid, rng: &mut rand::rngs::StdRng) -> (sweeps: usize)
    requires
        old(grid).wf(),
    ensures
        final(grid).wf(),
        same_setup(*old(grid), *final(grid)),
        final(grid).alive@.len() == old(grid).alive@.len(),
        forall|i: int|
            0 <= i < old(grid).alive@.len() && #[trigger] old(grid).alive@[i]
                ==> final(grid).alive@[i],
        1 <= sweeps,
        sweeps <= 1 + old(grid).alive@.len() - count_true(old(grid).alive@),
        sweeps <= 1 + (old(grid).width - 2) * (old(grid).height - 2),
        old(grid).spread_chance == 0 ==> *final(grid) == *old(grid) && sweeps == 1,
        old(grid).spread_chance == SPREAD_CHANCE_SCALE ==> settled(*final(grid)),
{
    let mut committed_sweeps: usize = 0;
    proof {
        lemma_count_true_le_len(grid.alive@);
    }
    loop
        invariant
            grid.wf(),
            same_setup(*old(grid), *grid),
            grid.alive@.len() == old(grid).alive@.len(),
            forall|i: int|
                0 <= i < old(grid).alive@.len() && #[trigger] old(grid).alive@[i]
                    ==> grid.alive@[i],
            committed_sweeps + count_true(old(grid).alive@) <= count_true(grid.alive@),
            count_true(grid.alive@) <= grid.alive@.len(),
            old(grid).spread_chance == 0 ==> *grid == *old(grid) && committed_sweeps == 0,
        ensures
            grid.wf(),
            same_setup(*old(grid), *grid),
            grid.alive@.len() == old(grid).alive@.len(),
            forall|i: int|
                0 <= i < old(grid).alive@.len() && #[trigger] old(grid).alive@[i]
                    ==> grid.alive@[i],
            committed_sweeps + count_true(old(grid).alive@) <= count_true(grid.alive@),
            count_true(grid.alive@) <= grid.alive@.len(),
            old(grid).spread_chance == 0 ==> *grid == *old(grid) && committed_sweeps == 0,
            old(grid).spread_chance == SPREAD_CHANCE_SCALE ==> settled(*grid),
        decreases grid.alive@.len() - count_true(grid.alive@),
    {
        let ghost prev = *grid;
        let c = sweep(grid, rng);
        proof {
            lemma_count_true_le_len(grid.alive@);
            lemma_liveness_monotonic_trans(old(grid).alive@, prev.alive@, grid.alive@);
        }
        if !c {
            proof {
                if grid.spread_chance == SPREAD_CHANCE_SCALE {
                    assert(settled(prev));
                    assert(*grid == prev);
                }
            }
            break;
        }
        committed_sweeps += 1;
    }
    proof {
        lemma_live_cells_fit_interior(*grid);
    }
    committed_sweeps + 1
}

} // verus!
