//! The stencil engine: a fixed-step 2D finite-difference solver.
//!
//! A [`Grid`] is a rectangular field of fixed-point samples stored row-major.
//! One step replaces each interior cell by the weighted average
//! `c/2 + (up + down + left + right)/8` and forces every border cell to zero;
//! samples are fixed-point numbers, so the average is the exact integer
//! quotient `(4*c + up + down + left + right) / 8`. Because the weights sum
//! to one, a step never enlarges the largest sample, and the arithmetic can
//! never overflow.
//!
//! [`run`] drives a whole simulation: `steps` applications of the step, with
//! two buffers swapped in ping-pong fashion. With more than one worker the
//! grid is split into contiguous row ranges by [`partition`]; the row ranges
//! write disjoint rows of the output buffer and only read the settled input
//! buffer, so the schedule in which ranges are processed cannot change the
//! result (see [`lemma_ranges_apply_full`]).

use vstd::prelude::*;

verus! {

/// One simulation field: `height` rows of `width` fixed-point samples in
/// row-major order; cell (i, j) lives at index `i * width + j`.
pub struct Grid {
    pub width: usize,
    pub height: usize,
    pub cells: Vec<u32>,
}

/// The next value of cell (i, j): zero on the border of the field, and the
/// 5-point weighted average `(4*c + up + down + left + right) / 8` inside.
pub open spec fn step_cell(g: Seq<u32>, w: nat, h: nat, i: int, j: int) -> u32 {
    if i == 0 || i + 1 == h || j == 0 || j + 1 == w {
        0u32
    } else {
        (((4 * g[i * w + j]) + g[(i - 1) * w + j] + g[(i + 1) * w + j] + g[i * w + j - 1] + g[i * w
            + j + 1]) / 8) as u32
    }
}

/// One full step of the stencil over a whole field.
pub open spec fn step_grid(g: Seq<u32>, w: nat, h: nat) -> Seq<u32> {
    Seq::new(w * h, |k: int| step_cell(g, w, h, k / (w as int), k % (w as int)))
}

/// The field after the flat window `[lo, hi)` of one step has been written
/// into `out`: inside the window the stencil of `g`, elsewhere `out`.
pub open spec fn stepped_window(out: Seq<u32>, g: Seq<u32>, w: nat, h: nat, lo: int, hi: int) -> Seq<
    u32,
> {
    Seq::new(out.len(), |k: int| if lo <= k < hi {
        step_grid(g, w, h)[k]
    } else {
        out[k]
    })
}

/// The field after the rows `[r0, r1)` of one step have been written into
/// `out`: inside that row window the stencil of `g`, elsewhere `out`.
pub open spec fn stepped_rows(out: Seq<u32>, g: Seq<u32>, w: nat, h: nat, r0: int, r1: int) -> Seq<
    u32,
> {
    stepped_window(out, g, w, h, r0 * w, r1 * w)
}

/// The field after `steps` whole stencil steps.
pub open spec fn run_spec(g: Seq<u32>, w: nat, h: nat, steps: nat) -> Seq<u32>
    decreases steps,
{
    if steps == 0 {
        g
    } else {
        step_grid(run_spec(g, w, h, (steps - 1) as nat), w, h)
    }
}

impl Grid {
    /// The flat storage holds exactly `width * height` samples.
    pub open spec fn wf(&self) -> bool {
        self.cells.len() == self.width * self.height
    }

    /// The sample at row `i`, column `j`.
    pub open spec fn cell(&self, i: int, j: int) -> u32 {
        self.cells@[i * self.width + j]
    }

    /// A fresh grid with every sample equal to `fill`.
    pub fn new(width: usize, height: usize, fill: u32) -> (g: Grid)
        requires
            width * height <= usize::MAX,
        ensures
            g.wf(),
            g.width == width,
            g.height == height,
            g.cells@ =~= Seq::new((width * height) as nat, |k: int| fill),
    {
        let n = width * height;
        let mut cells: Vec<u32> = Vec::new();
        let mut k: usize = 0;
        while k < n
            invariant
                k <= n,
                cells@ =~= Seq::new(k as nat, |q: int| fill),
            decreases n - k,
        {
            cells.push(fill);
            k = k + 1;
        }
        Grid { width, height, cells }
    }

    /// Reads the sample at row `i`, column `j`.
    pub fn get(&self, i: usize, j: usize) -> (v: u32)
        requires
            self.wf(),
            i < self.height,
            j < self.width,
        ensures
            v == self.cell(i as int, j as int),
    {
        proof {
            lemma_flat_index_in_bounds(
                self.width as nat,
                self.height as nat,
                i as int,
                j as int,
            );
        }
        self.cells[i * self.width + j]
    }
}

/// A step written over all rows of a field is exactly the stepped field.
proof fn lemma_stepped_rows_full(out: Seq<u32>, g: Seq<u32>, w: nat, h: nat)
    requires
        out.len() == w * h,
    ensures
        stepped_rows(out, g, w, h, 0, h as int) == step_grid(g, w, h),
{
    assert(h as int * w == w * h) by (nonlinear_arith);
    assert(stepped_rows(out, g, w, h, 0, h as int) =~= step_grid(g, w, h));
}

/// Border invariant of one step: the first and last row of the stepped field
/// are entirely zero, and the first and last column of every row are zero.
pub proof fn lemma_step_grid_borders(g: Seq<u32>, w: nat, h: nat, i: int, j: int)
    requires
        0 <= i < h,
        0 <= j < w,
        i == 0 || i + 1 == h || j == 0 || j + 1 == w,
    ensures
        step_grid(g, w, h)[i * w + j] == 0,
{
    lemma_step_grid_at(g, w, h, i, j);
}

/// Border invariant of a whole run: after at least one step, every border
/// cell of the field is zero.
pub proof fn lemma_run_borders(g: Seq<u32>, w: nat, h: nat, steps: nat, i: int, j: int)
    requires
        steps >= 1,
        0 <= i < h,
        0 <= j < w,
        i == 0 || i + 1 == h || j == 0 || j + 1 == w,
    ensures
        run_spec(g, w, h, steps)[i * w + j] == 0,
{
    lemma_step_grid_borders(run_spec(g, w, h, (steps - 1) as nat), w, h, i, j);
}

/// The output buffer after the row ranges of one step have been written into
/// it, one after the other, each reading only the settled input field `g`.
pub open spec fn apply_ranges(
    out: Seq<u32>,
    g: Seq<u32>,
    w: nat,
    h: nat,
    ranges: Seq<(usize, usize)>,
) -> Seq<u32>
    decreases ranges.len(),
{
    if ranges.len() == 0 {
        out
    } else {
        apply_ranges(
            stepped_rows(out, g, w, h, ranges[0].0 as int, ranges[0].1 as int),
            g,
            w,
            h,
            ranges.skip(1),
        )
    }
}

/// Row ranges that run back to back from row `lo` up to row `h`.
pub open spec fn consecutive_cover(ranges: Seq<(usize, usize)>, lo: int, h: int) -> bool
    decreases ranges.len(),
{
    if ranges.len() == 0 {
        lo == h
    } else {
        ranges[0].0 == lo && lo <= ranges[0].1 <= h && consecutive_cover(
            ranges.skip(1),
            ranges[0].1 as int,
            h,
        )
    }
}

/// Applying a consecutive list of ranges rewrites exactly the flat window of
/// the rows `[lo, h)`.
proof fn lemma_apply_ranges_window(
    out: Seq<u32>,
    g: Seq<u32>,
    w: nat,
    h: nat,
    ranges: Seq<(usize, usize)>,
    lo: int,
)
    requires
        out.len() == w * h,
        0 <= lo <= h,
        consecutive_cover(ranges, lo, h as int),
    ensures
        apply_ranges(out, g, w, h, ranges) == stepped_window(out, g, w, h, lo * w, h as int * w),
    decreases ranges.len(),
{
    if ranges.len() == 0 {
        assert(apply_ranges(out, g, w, h, ranges) =~= stepped_window(
            out,
            g,
            w,
            h,
            lo * w,
            h as int * w,
        ));
    } else {
        let m = ranges[0].1 as int;
        let written = stepped_rows(out, g, w, h, lo, m);
        lemma_apply_ranges_window(written, g, w, h, ranges.skip(1), m);
        vstd::arithmetic::mul::lemma_mul_inequality(lo, m, w as int);
        vstd::arithmetic::mul::lemma_mul_inequality(m, h as int, w as int);
        vstd::arithmetic::mul::lemma_mul_inequality(0, lo, w as int);
        assert(stepped_window(written, g, w, h, m * w, h as int * w) =~= stepped_window(
            out,
            g,
            w,
            h,
            lo * w,
            h as int * w,
        ));
    }
}

/// Schedule equivalence: writing the row ranges of any consecutive cover of
/// the rows `[0, h)`, one after the other, produces exactly one full stencil
/// step of `g` — whatever the output buffer held before, and however the
/// cover splits the rows. Concurrent workers that write disjoint ranges of
/// the cover therefore compute the same field as a single worker.
pub proof fn lemma_ranges_apply_full(
    out: Seq<u32>,
    g: Seq<u32>,
    w: nat,
    h: nat,
    ranges: Seq<(usize, usize)>,
)
    requires
        out.len() == w * h,
        consecutive_cover(ranges, 0, h as int),
    ensures
        apply_ranges(out, g, w, h, ranges) == step_grid(g, w, h),
{
    lemma_apply_ranges_window(out, g, w, h, ranges, 0);
    assert(h as int * w == w * h) by (nonlinear_arith);
    assert(stepped_window(out, g, w, h, 0, h as int * w) =~= step_grid(g, w, h));
}

/// The ranges produced by [`partition`] are a consecutive cover of `[0, h)`,
/// so [`lemma_ranges_apply_full`] applies to them.
pub proof fn lemma_partition_is_cover(ranges: Seq<(usize, usize)>, h: nat, p: nat)
    requires
        1 <= p <= h,
        ranges.len() == p,
        forall|i: int|
            0 <= i < p ==> (#[trigger] ranges[i]).0 == row_block(h, p, i) && ranges[i].1
                == row_block(h, p, i + 1),
    ensures
        consecutive_cover(ranges, 0, h as int),
{
    lemma_row_block_ends(h, p);
    lemma_partition_cover_from(ranges, h, p, 0);
    assert(ranges.skip(0) =~= ranges);
}

/// The tail of the partition from range `k` on covers the rows from boundary
/// `k` up to `h`.
proof fn lemma_partition_cover_from(ranges: Seq<(usize, usize)>, h: nat, p: nat, k: int)
    requires
        1 <= p <= h,
        0 <= k <= p,
        ranges.len() == p,
        forall|i: int|
            0 <= i < p ==> (#[trigger] ranges[i]).0 == row_block(h, p, i) && ranges[i].1
                == row_block(h, p, i + 1),
    ensures
        consecutive_cover(ranges.skip(k), row_block(h, p, k), h as int),
    decreases p - k,
{
    lemma_row_block_ends(h, p);
    if k == p {
        assert(ranges.skip(k).len() == 0);
    } else {
        lemma_row_block_monotone(h, p, k, k + 1);
        lemma_row_block_monotone(h, p, k + 1, p as int);
        lemma_partition_cover_from(ranges, h, p, k + 1);
        assert(ranges.skip(k).skip(1) =~= ranges.skip(k + 1));
        assert(ranges.skip(k)[0] == ranges[k]);
    }
}

/// Rejected configuration: the requested worker count does not fit the grid.
#[derive(Clone, Copy, Debug, PartialEq, Eq, Structural)]
pub enum RunError {
    /// The worker count was zero, or exceeded the number of grid rows.
    BadWorkerCount,
}

/// Runs `steps` stencil steps over `grid`, with the work of each step split
/// into `worker_count` contiguous row ranges, and returns the final field.
///
/// The result is `run_spec` of the initial field: it is fully determined by
/// the initial samples, the dimensions and the step count, and does not
/// depend on `worker_count` — every range of one step reads only the settled
/// input buffer and writes only its own rows of the output buffer.
pub fn run(grid: Grid, steps: u64, worker_count: usize) -> (res: Grid)
    requires
        grid.wf(),
        1 <= worker_count <= grid.height,
        grid.height * worker_count <= usize::MAX,
    ensures
        res.wf(),
        res.width == grid.width,
        res.height == grid.height,
        res.cells@ == run_spec(
            grid.cells@,
            grid.width as nat,
            grid.height as nat,
            steps as nat,
        ),
        steps == 0 ==> res.cells@ == grid.cells@,
{
    let ghost g0 = grid.cells@;
    let ghost wn = grid.width as nat;
    let ghost hn = grid.height as nat;
    if steps == 0 {
        return grid;
    }
    let w = grid.width;
    let h = grid.height;
    let mut cur = grid;
    let mut next = Grid::new(w, h, 0);
    if worker_count == 1 {
        let mut s: u64 = 0;
        while s < steps
            invariant
                s <= steps,
                cur.wf(),
                next.wf(),
                cur.width == w,
                cur.height == h,
                next.width == w,
                next.height == h,
                wn == w as nat,
                hn == h as nat,
                cur.cells@ == run_spec(g0, wn, hn, s as nat),
            decreases steps - s,
        {
            stencil_step_rows(&cur, &mut next, 0, h);
            proof {
                lemma_stepped_rows_full(
                    run_spec(g0, wn, hn, s as nat),
                    cur.cells@,
                    wn,
                    hn,
                );
            }
            core::mem::swap(&mut cur, &mut next);
            s = s + 1;
        }
        cur
    } else {
        let ghost pn = worker_count as nat;
        let ranges = partition(h, worker_count);
        let mut s: u64 = 0;
        while s < steps
            invariant
                s <= steps,
                cur.wf(),
                next.wf(),
                cur.width == w,
                cur.height == h,
                next.width == w,
                next.height == h,
                wn == w as nat,
                hn == h as nat,
                pn == worker_count as nat,
                1 <= pn <= hn,
                ranges@.len() == pn,
                forall|q: int|
                    0 <= q < pn ==> (#[trigger] ranges@[q]).0 == row_block(hn, pn, q)
                        && ranges@[q].1 == row_block(hn, pn, q + 1),
                cur.cells@ == run_spec(g0, wn, hn, s as nat),
            decreases steps - s,
        {
            let ghost next0 = next.cells@;
            let mut k: usize = 0;
            while k < worker_count
                invariant
                    cur.wf(),
                    next.wf(),
                    cur.width == w,
                    cur.height == h,
                    next.width == w,
                    next.height == h,
                    wn == w as nat,
                    hn == h as nat,
                    pn == worker_count as nat,
                    1 <= pn <= hn,
                    ranges@.len() == pn,
                    forall|q: int|
                        0 <= q < pn ==> (#[trigger] ranges@[q]).0 == row_block(hn, pn, q)
                            && ranges@[q].1 == row_block(hn, pn, q + 1),
                    0 <= k <= pn,
                    next0.len() == wn * hn,
                    next.cells@ == stepped_window(
                        next0,
                        cur.cells@,
                        wn,
                        hn,
                        0,
                        row_block(hn, pn, k as int) * wn,
                    ),
                decreases worker_count - k,
            {
                let (rs, re) = ranges[k];
                proof {
                    lemma_row_block_monotone(hn, pn, 0, k as int);
                    lemma_row_block_monotone(hn, pn, k as int, k as int + 1);
                    lemma_row_block_monotone(hn, pn, k as int + 1, pn as int);
                    lemma_row_block_ends(hn, pn);
                    vstd::arithmetic::mul::lemma_mul_inequality(
                        0,
                        row_block(hn, pn, k as int),
                        wn as int,
                    );
                    vstd::arithmetic::mul::lemma_mul_inequality(
                        row_block(hn, pn, k as int),
                        row_block(hn, pn, k as int + 1),
                        wn as int,
                    );
                }
                stencil_step_rows(&cur, &mut next, rs, re);
                proof {
                    assert(next.cells@ =~= stepped_window(
                        next0,
                        cur.cells@,
                        wn,
                        hn,
                        0,
                        row_block(hn, pn, k as int + 1) * wn,
                    ));
                }
                k = k + 1;
            }
            proof {
                lemma_row_block_ends(hn, pn);
                lemma_stepped_rows_full(next0, cur.cells@, wn, hn);
            }
            core::mem::swap(&mut cur, &mut next);
            s = s + 1;
        }
        cur
    }
}

/// Validates the configuration, then runs the simulation: `Ok` with the
/// final field exactly when `worker_count` is between 1 and the grid height,
/// `Err` otherwise, before any work is done.
pub fn try_run(grid: Grid, steps: u64, worker_count: usize) -> (res: Result<Grid, RunError>)
    requires
        grid.wf(),
        grid.height * worker_count <= usize::MAX,
    ensures
        match res {
            Ok(g) => 1 <= worker_count <= grid.height && g.wf() && g.width == grid.width
                && g.height == grid.height && g.cells@ == run_spec(
                grid.cells@,
                grid.width as nat,
                grid.height as nat,
                steps as nat,
            ),
            Err(e) => (worker_count < 1 || worker_count > grid.height) && e
                == RunError::BadWorkerCount,
        },
{
    if worker_count < 1 || worker_count > grid.height {
        return Err(RunError::BadWorkerCount);
    }
    Ok(run(grid, steps, worker_count))
}

/// For a cell (i, j) of a w-by-h field, the flat index i*w + j is in bounds.
proof fn lemma_flat_index_in_bounds(w: nat, h: nat, i: int, j: int)
    requires
        0 <= i < h,
        0 <= j < w,
    ensures
        0 <= i * w + j < w * h,
        i * w + j <= (h - 1) * w + (w - 1),
{
    assert(i * w + j < w * h && i * w + j <= (h - 1) * w + (w - 1)) by (nonlinear_arith)
        requires
            0 <= i < h,
            0 <= j < w,
    ;
}

/// At the flat index of cell (i, j), the stepped field holds the cell's
/// 5-point average.
proof fn lemma_step_grid_at(g: Seq<u32>, w: nat, h: nat, i: int, j: int)
    requires
        0 <= i < h,
        0 <= j < w,
    ensures
        0 <= i * w + j < w * h,
        step_grid(g, w, h)[i * w + j] == step_cell(g, w, h, i, j),
{
    lemma_flat_index_in_bounds(w, h, i, j);
    vstd::arithmetic::div_mod::lemma_fundamental_div_mod_converse(
        i * w + j,
        w as int,
        i,
        j,
    );
}

/// The first row of range `i` when `h` rows are split into `p` near-equal
/// contiguous ranges: `⌊h·i/p⌋`.
pub open spec fn row_block(h: nat, p: nat, i: int) -> int {
    h * i / (p as int)
}

/// Range boundaries grow with the range index.
pub proof fn lemma_row_block_monotone(h: nat, p: nat, i: int, j: int)
    requires
        p >= 1,
        0 <= i <= j,
    ensures
        0 <= row_block(h, p, i) <= row_block(h, p, j),
{
    vstd::arithmetic::mul::lemma_mul_inequality(i, j, h as int);
    vstd::arithmetic::div_mod::lemma_div_is_ordered(h * i, h * j, p as int);
    assert(h * 0 == 0) by (nonlinear_arith);
    vstd::arithmetic::mul::lemma_mul_inequality(0, i, h as int);
    vstd::arithmetic::div_mod::lemma_div_is_ordered(0, h * i, p as int);
    vstd::arithmetic::div_mod::lemma_div_of0(p as int);
}

/// The range boundaries start at row 0 and end at row h.
pub proof fn lemma_row_block_ends(h: nat, p: nat)
    requires
        p >= 1,
    ensures
        row_block(h, p, 0) == 0,
        row_block(h, p, p as int) == h,
{
    assert(h * 0 == 0) by (nonlinear_arith);
    vstd::arithmetic::div_mod::lemma_div_of0(p as int);
    assert(h * p == p * h) by (nonlinear_arith);
    vstd::arithmetic::div_mod::lemma_div_multiples_vanish(h as int, p as int);
}

/// With at most one range per row (`p <= h`), every range holds at least one
/// row.
pub proof fn lemma_row_block_step(h: nat, p: nat, i: int)
    requires
        1 <= p <= h,
        0 <= i,
    ensures
        row_block(h, p, i) + 1 <= row_block(h, p, i + 1),
{
    assert(h * (i + 1) == h * i + h) by (nonlinear_arith);
    vstd::arithmetic::div_mod::lemma_div_is_ordered(h * i + p, h * i + h, p as int);
    vstd::arithmetic::div_mod::lemma_div_plus_one(h * i, p as int);
}

/// Near-equal balance: every range of the partition holds either `⌊h/p⌋` or
/// `⌊h/p⌋ + 1` rows, so no two ranges differ by more than one row.
pub proof fn lemma_partition_balanced(h: nat, p: nat, i: int)
    requires
        1 <= p,
        0 <= i,
    ensures
        h as int / p as int <= row_block(h, p, i + 1) - row_block(h, p, i) <= h as int / p as int
            + 1,
{
    let pp = p as int;
    let hh = h as int;
    let q = hh / pp;
    let x = hh * i;
    let y = hh * (i + 1);
    assert(hh * (i + 1) == hh * i + hh) by (nonlinear_arith);
    vstd::arithmetic::div_mod::lemma_fundamental_div_mod(hh, pp);
    vstd::arithmetic::div_mod::lemma_fundamental_div_mod(x, pp);
    vstd::arithmetic::div_mod::lemma_fundamental_div_mod(y, pp);
    vstd::arithmetic::div_mod::lemma_mod_division_less_than_divisor(hh, pp);
    vstd::arithmetic::div_mod::lemma_mod_division_less_than_divisor(x, pp);
    vstd::arithmetic::div_mod::lemma_mod_division_less_than_divisor(y, pp);
    let a = x / pp;
    let b = y / pp;
    assert(pp * (b - a) == pp * b - pp * a && pp * (q + 2) == pp * q + 2 * pp && pp * (q - 1) == pp
        * q - pp) by (nonlinear_arith);
    if b - a <= q - 1 {
        vstd::arithmetic::mul::lemma_mul_inequality(b - a, q - 1, pp);
        assert((b - a) * pp == pp * (b - a) && (q - 1) * pp == pp * (q - 1)) by (nonlinear_arith);
        assert(false);
    }
    if b - a >= q + 2 {
        vstd::arithmetic::mul::lemma_mul_inequality(q + 2, b - a, pp);
        assert((b - a) * pp == pp * (b - a) && (q + 2) * pp == pp * (q + 2)) by (nonlinear_arith);
        assert(false);
    }
}

/// Finds the range that holds row `r`, walking up from range `i`.
proof fn lemma_cover_from(h: nat, p: nat, i: int, r: int)
    requires
        1 <= p <= h,
        0 <= i < p,
        row_block(h, p, i) <= r < h,
    ensures
        exists|q: int|
            i <= q < p && #[trigger] row_block(h, p, q) <= r < row_block(h, p, q + 1),
    decreases p - i,
{
    if r < row_block(h, p, i + 1) {
        assert(i <= i < p && row_block(h, p, i) <= r < row_block(h, p, i + 1));
    } else {
        lemma_row_block_ends(h, p);
        assert(i + 1 < p);
        lemma_cover_from(h, p, i + 1, r);
    }
}

/// Partition coverage: splitting `h` rows into `p` ranges
/// `[⌊h·i/p⌋, ⌊h·(i+1)/p⌋)` yields ranges that are each at least one row
/// long, pairwise disjoint, and whose union is exactly the rows `[0, h)`.
pub proof fn lemma_partition_covers(h: nat, p: nat)
    requires
        1 <= p <= h,
    ensures
        row_block(h, p, 0) == 0,
        row_block(h, p, p as int) == h,
        forall|i: int|
            0 <= i < p ==> #[trigger] row_block(h, p, i) < row_block(h, p, i + 1),
        forall|i: int, j: int|
            0 <= i < j < p ==> #[trigger] row_block(h, p, i + 1) <= #[trigger] row_block(h, p, j),
{
    lemma_row_block_ends(h, p);
    assert forall|i: int| 0 <= i < p implies #[trigger] row_block(h, p, i) < row_block(
        h,
        p,
        i + 1,
    ) by {
        lemma_row_block_step(h, p, i);
    }
    assert forall|i: int, j: int| 0 <= i < j < p implies #[trigger] row_block(h, p, i + 1)
        <= #[trigger] row_block(h, p, j) by {
        lemma_row_block_monotone(h, p, i + 1, j);
    }
}

/// Partition coverage, row by row: every row `r` of `[0, h)` falls in exactly
/// the ranges promised by [`lemma_partition_covers`]; this lemma names one
/// range that holds it.
pub proof fn lemma_partition_covers_row(h: nat, p: nat, r: int)
    requires
        1 <= p <= h,
        0 <= r < h,
    ensures
        exists|i: int|
            0 <= i < p && #[trigger] row_block(h, p, i) <= r < row_block(h, p, i + 1),
{
    lemma_row_block_ends(h, p);
    lemma_cover_from(h, p, 0, r);
}

/// The worker count that a hardware-concurrency hint yields for an `h`-row
/// grid: capped at 8, then capped at `h`, then floored at 1.
pub open spec fn clamp_workers_spec(hint: int, h: int) -> int {
    let capped = if hint > 8 {
        8
    } else {
        hint
    };
    let fitted = if capped > h {
        h
    } else {
        capped
    };
    if fitted < 1 {
        1
    } else {
        fitted
    }
}

/// Clamps a hardware-concurrency hint to the worker count used for an
/// `h`-row grid: at most 8 to avoid oversubscription, at most `h` so that
/// every worker gets at least one row, and at least 1.
pub fn clamp_workers(hint: usize, h: usize) -> (n: usize)
    ensures
        n == clamp_workers_spec(hint as int, h as int),
        h >= 1 ==> 1 <= n <= h,
{
    let mut n = hint;
    if n > 8 {
        n = 8;
    }
    if n > h {
        n = h;
    }
    if n < 1 {
        n = 1;
    }
    n
}

/// Splits `h` rows into `p` contiguous near-equal ranges; range `i` is
/// `[⌊h·i/p⌋, ⌊h·(i+1)/p⌋)`. Consecutive ranges share their boundary, so the
/// ranges are disjoint and cover `[0, h)` exactly (see
/// [`lemma_partition_covers`]).
pub fn partition(h: usize, p: usize) -> (ranges: Vec<(usize, usize)>)
    requires
        1 <= p <= h,
        h * p <= usize::MAX,
    ensures
        ranges@.len() == p,
        forall|i: int|
            0 <= i < p ==> (#[trigger] ranges@[i]).0 == row_block(h as nat, p as nat, i)
                && ranges@[i].1 == row_block(h as nat, p as nat, i + 1),
{
    let mut ranges: Vec<(usize, usize)> = Vec::new();
    let mut i: usize = 0;
    while i < p
        invariant
            i <= p,
            1 <= p <= h,
            h * p <= usize::MAX,
            ranges@.len() == i,
            forall|q: int|
                0 <= q < i ==> (#[trigger] ranges@[q]).0 == row_block(h as nat, p as nat, q)
                    && ranges@[q].1 == row_block(h as nat, p as nat, q + 1),
        decreases p - i,
    {
        proof {
            vstd::arithmetic::mul::lemma_mul_inequality(i as int, p as int, h as int);
            vstd::arithmetic::mul::lemma_mul_inequality(i as int + 1, p as int, h as int);
            assert(h * i == i * h && h * (i + 1) == (i as int + 1) * h && h * p == p * h)
                by (nonlinear_arith);
        }
        let start = (h * i) / p;
        let end = (h * (i + 1)) / p;
        ranges.push((start, end));
        i = i + 1;
    }
    ranges
}

/// Applies one stencil step to the rows `[row_start, row_end)`: those rows of
/// `output` are recomputed from `input`, every other cell of `output` keeps
/// its value. `input` is only read, so disjoint row ranges of one step can be
/// processed in any order, or concurrently, without affecting the outcome.
pub fn stencil_step_rows(input: &Grid, output: &mut Grid, row_start: usize, row_end: usize)
    requires
        input.wf(),
        old(output).wf(),
        old(output).width == input.width,
        old(output).height == input.height,
        row_start <= row_end <= input.height,
    ensures
        final(output).wf(),
        final(output).width == input.width,
        final(output).height == input.height,
        final(output).cells@ == stepped_rows(
            old(output).cells@,
            input.cells@,
            input.width as nat,
            input.height as nat,
            row_start as int,
            row_end as int,
        ),
{
    let w = input.width;
    let h = input.height;
    let ghost g = input.cells@;
    let ghost out0 = old(output).cells@;
    let ghost wn = w as nat;
    let ghost hn = h as nat;
    proof {
        assert(row_start * wn <= row_end * wn <= hn * wn) by (nonlinear_arith)
            requires
                row_start <= row_end <= hn,
        ;
        assert(old(output).cells@ =~= stepped_window(
            out0,
            g,
            wn,
            hn,
            row_start as int * wn,
            row_start as int * wn,
        ));
    }
    let mut i = row_start;
    while i < row_end
        invariant
            input.wf(),
            output.wf(),
            w == input.width,
            h == input.height,
            g == input.cells@,
            wn == w as nat,
            hn == h as nat,
            output.width == w,
            output.height == h,
            out0.len() == wn * hn,
            row_start <= i <= row_end <= h,
            row_start as int * wn <= i as int * wn,
            output.cells@ == stepped_window(
                out0,
                g,
                wn,
                hn,
                row_start as int * wn,
                i as int * wn,
            ),
        decreases row_end - i,
    {
        if w > 0 {
            proof {
                lemma_flat_index_in_bounds(wn, hn, i as int, (w - 1) as int);
                vstd::arithmetic::mul::lemma_mul_inequality(row_start as int, i as int, wn as int);
            }
            let base = i * w;
            if i == 0 || i + 1 == h {
                let mut j: usize = 0;
                while j < w
                    invariant
                        input.wf(),
                        output.wf(),
                        w == input.width,
                        h == input.height,
                        g == input.cells@,
                        wn == w as nat,
                        hn == h as nat,
                        output.width == w,
                        output.height == h,
                        out0.len() == wn * hn,
                        row_start <= i < row_end <= h,
                        i == 0 || i + 1 == h,
                        base == i * w,
                        row_start as int * wn <= base,
                        0 <= j <= w,
                        base + w <= wn * hn,
                        output.cells@ == stepped_window(
                            out0,
                            g,
                            wn,
                            hn,
                            row_start as int * wn,
                            base + j,
                        ),
                    decreases w - j,
                {
                    proof {
                        lemma_step_grid_at(g, wn, hn, i as int, j as int);
                    }
                    output.cells[base + j] = 0;
                    proof {
                        assert(output.cells@ =~= stepped_window(
                            out0,
                            g,
                            wn,
                            hn,
                            row_start as int * wn,
                            base + j + 1,
                        ));
                    }
                    j = j + 1;
                }
            } else {
                proof {
                    lemma_step_grid_at(g, wn, hn, i as int, 0);
                }
                output.cells[base] = 0;
                proof {
                    assert(output.cells@ =~= stepped_window(
                        out0,
                        g,
                        wn,
                        hn,
                        row_start as int * wn,
                        base + 1,
                    ));
                }
                let mut j: usize = 1;
                while j < w - 1
                    invariant
                        input.wf(),
                        output.wf(),
                        w == input.width,
                        h == input.height,
                        g == input.cells@,
                        wn == w as nat,
                        hn == h as nat,
                        output.width == w,
                        output.height == h,
                        out0.len() == wn * hn,
                        row_start <= i < row_end <= h,
                        0 < i && i + 1 < h,
                        base == i * w,
                        row_start as int * wn <= base,
                        1 <= j <= w,
                        base + w <= wn * hn,
                        output.cells@ == stepped_window(
                            out0,
                            g,
                            wn,
                            hn,
                            row_start as int * wn,
                            base + j,
                        ),
                    decreases w - j,
                {
                    let idx = base + j;
                    proof {
                        lemma_step_grid_at(g, wn, hn, i as int, j as int);
                        lemma_flat_index_in_bounds(wn, hn, i as int - 1, j as int);
                        lemma_flat_index_in_bounds(wn, hn, i as int + 1, j as int);
                        assert((i as int - 1) * wn == i as int * wn - wn && (i as int + 1) * wn
                            == i as int * wn + wn) by (nonlinear_arith);
                        assert(i as int * wn == base);
                        assert((i as int - 1) * wn + j == idx - w);
                        assert((i as int + 1) * wn + j == idx + w);
                    }
                    let c = input.cells[idx] as u64;
                    let up = input.cells[idx - w] as u64;
                    let down = input.cells[idx + w] as u64;
                    let left = input.cells[idx - 1] as u64;
                    let right = input.cells[idx + 1] as u64;
                    let sum = 4 * c + up + down + left + right;
                    let v = (sum / 8) as u32;
                    proof {
                        assert(sum <= 8 * 0xffff_ffffu64);
                        assert(sum / 8 <= 0xffff_ffffu64);
                        assert(v == step_cell(g, wn, hn, i as int, j as int));
                    }
                    output.cells[idx] = v;
                    proof {
                        assert(output.cells@ =~= stepped_window(
                            out0,
                            g,
                            wn,
                            hn,
                            row_start as int * wn,
                            base + j + 1,
                        ));
                    }
                    j = j + 1;
                }
                proof {
                    lemma_step_grid_at(g, wn, hn, i as int, (w - 1) as int);
                }
                output.cells[base + (w - 1)] = 0;
                proof {
                    assert(output.cells@ =~= stepped_window(
                        out0,
                        g,
                        wn,
                        hn,
                        row_start as int * wn,
                        base + w,
                    ));
                }
            }
        }
        proof {
            assert((i + 1) as int * wn == i as int * wn + wn) by (nonlinear_arith);
            assert(output.cells@ =~= stepped_window(
                out0,
                g,
                wn,
                hn,
                row_start as int * wn,
                (i + 1) as int * wn,
            ));
        }
        i = i + 1;
    }
}

} // verus!
