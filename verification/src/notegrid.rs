//! Grids of order keys: frames by frequency bins, and the zeroing of
//! frequency bands that marks energy as consumed.
use vstd::prelude::*;

verus! {

/// The contents of a grid of rows, as sequences.
pub open spec fn gv(g: &Vec<Vec<i64>>) -> Seq<Seq<i64>> {
    g@.map_values(|r: Vec<i64>| r@)
}

/// Every row of `g` has `cols` cells.
pub open spec fn is_rect(g: Seq<Seq<i64>>, cols: int) -> bool {
    forall|t: int| 0 <= t < g.len() ==> #[trigger] g[t].len() == cols
}

/// `row` with the cells at `f - 1`, `f` and `f + 1` set to zero.
pub open spec fn zero_cells(row: Seq<i64>, f: int) -> Seq<i64> {
    Seq::new(row.len(), |c: int| if f - 1 <= c <= f + 1 { 0i64 } else { row[c] })
}

/// `g` with the band around bin `f` zeroed in rows `lo..hi`.
pub open spec fn zero_bands(g: Seq<Seq<i64>>, lo: int, hi: int, f: int) -> Seq<Seq<i64>> {
    Seq::new(g.len(), |t: int| if lo <= t < hi { zero_cells(g[t], f) } else { g[t] })
}

/// Zeroes the band of bins `freq_idx - 1 ..= freq_idx + 1` of `row`.
pub fn zero_band(row: &mut Vec<i64>, freq_idx: usize, n_freqs: usize)
    requires
        freq_idx < n_freqs,
        old(row)@.len() == n_freqs,
    ensures
        final(row)@ == zero_cells(old(row)@, freq_idx as int),
{
    row[freq_idx] = 0;
    if freq_idx + 1 < n_freqs {
        row[freq_idx + 1] = 0;
    }
    if freq_idx > 0 {
        row[freq_idx - 1] = 0;
    }
    assert(row@ =~= zero_cells(old(row)@, freq_idx as int));
}

/// Zeroes the band around `freq_idx` in row `t` of `grid`.
pub fn zero_band_in_row(grid: &mut Vec<Vec<i64>>, t: usize, freq_idx: usize, n_freqs: usize)
    requires
        t < old(grid)@.len(),
        freq_idx < n_freqs,
        is_rect(gv(old(grid)), n_freqs as int),
    ensures
        gv(final(grid)) == zero_bands(gv(old(grid)), t as int, t + 1, freq_idx as int),
{
    let ghost g0 = gv(grid);
    assert(g0[t as int].len() == n_freqs);
    zero_band(&mut grid[t], freq_idx, n_freqs);
    assert(gv(grid) =~= zero_bands(g0, t as int, t + 1, freq_idx as int));
}

/// Cell `(t2, f2)` comes before cell `(t, f)` in row-major order.
pub open spec fn cell_before(t2: int, f2: int, t: int, f: int) -> bool {
    t2 < t || (t2 == t && f2 < f)
}

/// `(t, f)` is a cell of `g`.
pub open spec fn is_cell(g: Seq<Seq<i64>>, t: int, f: int) -> bool {
    0 <= t < g.len() && 0 <= f < g[t].len()
}

/// `(t, f)` holds the largest value of `g`, and no earlier cell (row-major) holds it.
pub open spec fn is_first_max_2d(g: Seq<Seq<i64>>, t: int, f: int) -> bool {
    &&& is_cell(g, t, f)
    &&& forall|t2: int, f2: int| #[trigger] is_cell(g, t2, f2) ==> g[t2][f2] <= g[t][f]
    &&& forall|t2: int, f2: int|
        #[trigger] is_cell(g, t2, f2) && cell_before(t2, f2, t, f) ==> g[t2][f2] < g[t][f]
}

/// `g` has at least one cell.
pub open spec fn has_cells(g: Seq<Seq<i64>>) -> bool {
    exists|t: int, f: int| is_cell(g, t, f)
}

/// The first maximal cell of a grid is unique.
pub proof fn lemma_first_max_2d_unique(g: Seq<Seq<i64>>, t1: int, f1: int, t2: int, f2: int)
    requires
        is_first_max_2d(g, t1, f1),
        is_first_max_2d(g, t2, f2),
    ensures
        t1 == t2 && f1 == f2,
{
    assert(is_cell(g, t1, f1) && is_cell(g, t2, f2));
    if cell_before(t1, f1, t2, f2) {
        assert(g[t1][f1] < g[t2][f2]);
        assert(g[t2][f2] <= g[t1][f1]);
    } else if cell_before(t2, f2, t1, f1) {
        assert(g[t2][f2] < g[t1][f1]);
        assert(g[t1][f1] <= g[t2][f2]);
    }
}

/// The first cell (row-major) holding the largest value of `grid`, with that
/// value; `None` when the grid has no cells.
pub fn argmax_2d(grid: &Vec<Vec<i64>>) -> (r: Option<(usize, usize, i64)>)
    ensures
        r is None <==> !has_cells(gv(grid)),
        r matches Some((t, f, v)) ==> is_first_max_2d(gv(grid), t as int, f as int) && v == gv(
            grid,
        )[t as int][f as int],
{
    let ghost g = gv(grid);
    let mut best: Option<(usize, usize, i64)> = None;
    let n = grid.len();
    let mut t: usize = 0;
    while t < n
        invariant
            g == gv(grid),
            n == g.len(),
            grid@.len() == n,
            t <= n,
            best is None ==> forall|t2: int, f2: int| #[trigger] is_cell(g, t2, f2) ==> t2 >= t,
            best matches Some((bt, bf, bv)) ==> {
                &&& is_cell(g, bt as int, bf as int)
                &&& bt < t
                &&& bv == g[bt as int][bf as int]
                &&& forall|t2: int, f2: int| #[trigger] is_cell(g, t2, f2) && t2 < t ==> g[t2][f2] <= bv
                &&& forall|t2: int, f2: int|
                    #[trigger] is_cell(g, t2, f2) && cell_before(t2, f2, bt as int, bf as int) ==> g[t2][f2] < bv
            },
        decreases n - t,
    {
        let row = &grid[t];
        assert(row@ == g[t as int]);
        let m = row.len();
        let mut f: usize = 0;
        while f < m
            invariant
                g == gv(grid),
                n == g.len(),
                t < n,
                row@ == g[t as int],
                m == row@.len(),
                f <= m,
                best is None ==> forall|t2: int, f2: int| #[trigger] is_cell(g, t2, f2) ==> !cell_before(t2, f2, t as int, f as int),
                best matches Some((bt, bf, bv)) ==> {
                    &&& is_cell(g, bt as int, bf as int)
                    &&& cell_before(bt as int, bf as int, t as int, f as int)
                    &&& bv == g[bt as int][bf as int]
                    &&& forall|t2: int, f2: int| #[trigger] is_cell(g, t2, f2) && cell_before(t2, f2, t as int, f as int) ==> g[t2][f2] <= bv
                    &&& forall|t2: int, f2: int|
                        #[trigger] is_cell(g, t2, f2) && cell_before(t2, f2, bt as int, bf as int) ==> g[t2][f2] < bv
                },
            decreases m - f,
        {
            let v = row[f];
            let take = match best {
                None => true,
                Some((_, _, prev)) => v > prev,
            };
            if take {
                best = Some((t, f, v));
            }
            f += 1;
        }
        t += 1;
    }
    proof {
        if best is None {
            if has_cells(g) {
                let (t2, f2) = choose|t2: int, f2: int| is_cell(g, t2, f2);
                assert(is_cell(g, t2, f2));
            }
        }
    }
    best
}

/// The number of cells of `row` above `thr`.
pub open spec fn row_above(row: Seq<i64>, thr: i64) -> nat
    decreases row.len(),
{
    if row.len() == 0 {
        0
    } else {
        row_above(row.drop_last(), thr) + if row.last() > thr { 1nat } else { 0nat }
    }
}

/// The number of cells of `g` above `thr`.
pub open spec fn count_above(g: Seq<Seq<i64>>, thr: i64) -> nat
    decreases g.len(),
{
    if g.len() == 0 {
        0
    } else {
        count_above(g.drop_last(), thr) + row_above(g.last(), thr)
    }
}

/// `g2` has the shape of `g`, and a cell of `g2` above `thr` was above `thr` in `g`.
pub open spec fn lowered(g2: Seq<Seq<i64>>, g: Seq<Seq<i64>>, thr: i64) -> bool {
    &&& g2.len() == g.len()
    &&& forall|t: int| 0 <= t < g.len() ==> #[trigger] g2[t].len() == g[t].len()
    &&& forall|t: int, f: int| #[trigger] is_cell(g, t, f) && g2[t][f] > thr ==> g[t][f] > thr
}

proof fn lemma_row_above_mono(r2: Seq<i64>, r: Seq<i64>, thr: i64, j: int)
    requires
        r2.len() == r.len(),
        forall|c: int| 0 <= c < r.len() && #[trigger] r2[c] > thr ==> r[c] > thr,
    ensures
        row_above(r2, thr) <= row_above(r, thr),
        0 <= j < r.len() && r[j] > thr && r2[j] <= thr ==> row_above(r2, thr) < row_above(r, thr),
    decreases r.len(),
{
    if r.len() > 0 {
        let n = r.len() - 1;
        assert forall|c: int| 0 <= c < r.drop_last().len() && #[trigger] r2.drop_last()[c] > thr implies r.drop_last()[c] > thr by {
            assert(r2.drop_last()[c] == r2[c]);
        }
        lemma_row_above_mono(r2.drop_last(), r.drop_last(), thr, j);
        if r2.last() > thr {
            assert(r2[n] > thr);
        }
    }
}

/// Lowering cells below a threshold never raises the count above it, and
/// lowering one cell from above it to below it lowers the count.
pub proof fn lemma_count_above_mono(g2: Seq<Seq<i64>>, g: Seq<Seq<i64>>, thr: i64, t: int, f: int)
    requires
        lowered(g2, g, thr),
    ensures
        count_above(g2, thr) <= count_above(g, thr),
        is_cell(g, t, f) && g[t][f] > thr && g2[t][f] <= thr ==> count_above(g2, thr) < count_above(g, thr),
    decreases g.len(),
{
    if g.len() > 0 {
        let n = g.len() - 1;
        let a = g2.drop_last();
        let b = g.drop_last();
        assert forall|t1: int| 0 <= t1 < b.len() implies #[trigger] a[t1].len() == b[t1].len() by {
            assert(g2[t1].len() == g[t1].len());
        }
        assert forall|t1: int, f1: int| #[trigger] is_cell(b, t1, f1) && a[t1][f1] > thr implies b[t1][f1] > thr by {
            assert(is_cell(g, t1, f1));
        }
        lemma_count_above_mono(a, b, thr, t, f);
        assert(g2[n].len() == g[n].len());
        assert forall|c: int| 0 <= c < g[n].len() && #[trigger] g2[n][c] > thr implies g[n][c] > thr by {
            assert(is_cell(g, n, c));
        }
        lemma_row_above_mono(g2[n], g[n], thr, f);
        if is_cell(g, t, f) && g[t][f] > thr && g2[t][f] <= thr && t < n {
            assert(is_cell(b, t, f));
        }
    }
}

/// Zeroing bands never raises a cell above a non-negative threshold.
pub proof fn lemma_zero_bands_lowered(g: Seq<Seq<i64>>, lo: int, hi: int, f: int, thr: i64)
    requires
        thr >= 0,
    ensures
        lowered(zero_bands(g, lo, hi, f), g, thr),
{
    let z = zero_bands(g, lo, hi, f);
    assert forall|t: int, c: int| #[trigger] is_cell(g, t, c) && z[t][c] > thr implies g[t][c] > thr by {
        if lo <= t < hi {
            assert(z[t] == zero_cells(g[t], f));
        }
    }
}

/// `lowered` is transitive.
pub proof fn lemma_lowered_trans(g3: Seq<Seq<i64>>, g2: Seq<Seq<i64>>, g: Seq<Seq<i64>>, thr: i64)
    requires
        lowered(g3, g2, thr),
        lowered(g2, g, thr),
    ensures
        lowered(g3, g, thr),
{
    assert forall|t: int| 0 <= t < g.len() implies #[trigger] g3[t].len() == g[t].len() by {
        assert(g2[t].len() == g[t].len());
    }
    assert forall|t: int, c: int| #[trigger] is_cell(g, t, c) && g3[t][c] > thr implies g[t][c] > thr by {
        assert(g2[t].len() == g[t].len());
        assert(is_cell(g2, t, c));
    }
}

/// A copy of `grid`.
pub fn copy_grid(grid: &Vec<Vec<i64>>) -> (r: Vec<Vec<i64>>)
    ensures
        gv(&r) == gv(grid),
{
    let mut r: Vec<Vec<i64>> = Vec::new();
    let mut t: usize = 0;
    while t < grid.len()
        invariant
            t <= grid@.len(),
            r@.len() == t,
            gv(&r) == gv(grid).take(t as int),
        decreases grid@.len() - t,
    {
        let row = grid[t].clone();
        assert(row@ =~= grid@[t as int]@);
        let ghost prev = r@;
        r.push(row);
        assert forall|j: int| 0 <= j < t + 1 implies #[trigger] gv(&r)[j] == gv(grid).take(t + 1)[j] by {
            if j < t {
                assert(r@[j] == prev[j]);
                assert(gv(&r)[j] == prev[j]@);
            }
        }
        assert(gv(&r) =~= gv(grid).take(t + 1));
        t += 1;
    }
    assert(gv(grid).take(t as int) =~= gv(grid));
    r
}

} // verus!
