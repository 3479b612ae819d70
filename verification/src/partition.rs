//! Partition planner: tiles a width x height screen into a requested number
//! of rectangular sections arranged as a grid of rows, scoring candidate
//! tilings by how close their cells are to square.

use vstd::prelude::*;

verus! {

use vstd::arithmetic::power::pow;
use vstd::arithmetic::power::lemma_pow_positive;
use vstd::arithmetic::mul::lemma_mul_inequality;

/// Sum of a sequence of part sizes.
pub open spec fn sum_of(s: Seq<usize>) -> int
    decreases s.len(),
{
    if s.len() == 0 {
        0
    } else {
        sum_of(s.drop_last()) + s.last()
    }
}

/// A valid integer partition of `n`: at least one part, every part positive,
/// parts summing to `n`.
pub open spec fn is_partition(p: Seq<usize>, n: int) -> bool {
    &&& p.len() >= 1
    &&& (forall|j: int| 0 <= j < p.len() ==> 1 <= #[trigger] p[j])
    &&& sum_of(p) == n
}

/// Squareness score of one cell: squared difference of width and height.
pub open spec fn cell_score(c: (usize, usize)) -> int {
    (c.0 - c.1) * (c.0 - c.1)
}

/// Squareness score of one row of cells.
pub open spec fn row_score(row: Seq<(usize, usize)>) -> int
    decreases row.len(),
{
    if row.len() == 0 {
        0
    } else {
        row_score(row.drop_last()) + cell_score(row.last())
    }
}

/// Squareness score of a whole grid: sum of squared (width - height)
/// differences over all cells; lower means more square.
pub open spec fn grid_score(g: Seq<Seq<(usize, usize)>>) -> int
    decreases g.len(),
{
    if g.len() == 0 {
        0
    } else {
        grid_score(g.drop_last()) + row_score(g.last())
    }
}

/// View of an in-memory grid (rows of cells) as a sequence of sequences.
pub open spec fn grid_view(g: Seq<Vec<(usize, usize)>>) -> Seq<Seq<(usize, usize)>> {
    g.map_values(|row: Vec<(usize, usize)>| row@)
}

proof fn lemma_row_score_nonneg(row: Seq<(usize, usize)>)
    ensures
        row_score(row) >= 0,
    decreases row.len(),
{
    if row.len() > 0 {
        lemma_row_score_nonneg(row.drop_last());
        let c = row.last();
        assert(cell_score(c) >= 0) by (nonlinear_arith);
    }
}

proof fn lemma_row_score_step(row: Seq<(usize, usize)>, j: int)
    requires
        0 <= j < row.len(),
    ensures
        row_score(row.take(j + 1)) == row_score(row.take(j)) + cell_score(row[j]),
{
    let pre = row.take(j + 1);
    assert(pre.drop_last() =~= row.take(j));
    assert(pre.last() == row[j]);
}

proof fn lemma_row_score_take_bound(row: Seq<(usize, usize)>, j: int)
    requires
        0 <= j <= row.len(),
    ensures
        row_score(row.take(j)) <= row_score(row),
    decreases row.len() - j,
{
    if j == row.len() {
        assert(row.take(j) =~= row);
    } else {
        lemma_row_score_step(row, j);
        assert(cell_score(row[j]) >= 0) by (nonlinear_arith);
        lemma_row_score_take_bound(row, j + 1);
    }
}

proof fn lemma_grid_score_step(g: Seq<Seq<(usize, usize)>>, i: int)
    requires
        0 <= i < g.len(),
    ensures
        grid_score(g.take(i + 1)) == grid_score(g.take(i)) + row_score(g[i]),
{
    let pre = g.take(i + 1);
    assert(pre.drop_last() =~= g.take(i));
    assert(pre.last() == g[i]);
}

proof fn lemma_grid_score_take_bound(g: Seq<Seq<(usize, usize)>>, i: int)
    requires
        0 <= i <= g.len(),
    ensures
        grid_score(g.take(i)) <= grid_score(g),
    decreases g.len() - i,
{
    if i == g.len() {
        assert(g.take(i) =~= g);
    } else {
        lemma_grid_score_step(g, i);
        lemma_row_score_nonneg(g[i]);
        lemma_grid_score_take_bound(g, i + 1);
    }
}

/// Squareness score of a tiling: the sum over all cells of the squared
/// difference between cell width and cell height. Lower means more square.
pub fn squareness(v: &[Vec<(usize, usize)>]) -> (r: isize)
    requires
        grid_score(grid_view(v@)) <= isize::MAX,
    ensures
        r == grid_score(grid_view(v@)),
        r >= 0,
{
    let ghost g = grid_view(v@);
    let mut total: isize = 0;
    for i in 0..v.len()
        invariant
            g == grid_view(v@),
            g.len() == v@.len(),
            grid_score(g) <= isize::MAX,
            0 <= total,
            total == grid_score(g.take(i as int)),
    {
        let row = &v[i];
        assert(g[i as int] == row@);
        let ghost rs = row@;
        let mut row_total: isize = 0;
        for j in 0..row.len()
            invariant
                g == grid_view(v@),
                g.len() == v@.len(),
                i < v@.len(),
                g[i as int] == rs,
                rs == row@,
                grid_score(g) <= isize::MAX,
                0 <= total,
                total == grid_score(g.take(i as int)),
                0 <= row_total,
                row_total == row_score(rs.take(j as int)),
                total + row_total <= isize::MAX,
        {
            let (w, h) = row[j];
            let d: usize = if w >= h { w - h } else { h - w };
            proof {
                assert(cell_score(rs[j as int]) == d * d) by (nonlinear_arith)
                    requires
                        rs[j as int] == (w, h),
                        d == if w >= h { (w - h) as usize } else { (h - w) as usize },
                ;
                lemma_row_score_step(rs, j as int);
                lemma_row_score_take_bound(rs, j + 1);
                lemma_grid_score_step(g, i as int);
                lemma_grid_score_take_bound(g, i + 1);
                assert(d * d >= 0 && d * d >= d) by (nonlinear_arith);
            }
            let di: isize = d as isize;
            row_total = row_total + di * di;
        }
        proof {
            assert(rs.take(row.len() as int) =~= rs);
            lemma_grid_score_step(g, i as int);
            lemma_grid_score_take_bound(g, i + 1);
        }
        total = total + row_total;
    }
    proof {
        assert(g.take(v@.len() as int) =~= g);
    }
    total
}

/// The grid a single partition materializes to: one row per part, part `i`
/// giving `p[i]` cells of width `width / p[i]`, every row sharing the cell
/// height `height / p.len()`. Integer division truncates; trailing pixels
/// beyond the covered area are intentionally left unaddressed.
pub open spec fn rects_of(width: usize, height: usize, p: Seq<usize>) -> Seq<
    Seq<(usize, usize)>,
> {
    Seq::new(
        p.len(),
        |i: int|
            Seq::new(
                p[i] as nat,
                |j: int| ((width / p[i]) as usize, (height as int / p.len() as int) as usize),
            ),
    )
}

/// Number of cells in a grid, all rows together.
pub open spec fn cell_count(g: Seq<Seq<(usize, usize)>>) -> int
    decreases g.len(),
{
    if g.len() == 0 {
        0
    } else {
        cell_count(g.drop_last()) + g.last().len()
    }
}

proof fn lemma_cell_count_rects_of(width: usize, height: usize, p: Seq<usize>)
    requires
        forall|j: int| 0 <= j < p.len() ==> 1 <= #[trigger] p[j],
    ensures
        cell_count(rects_of(width, height, p)) == sum_of(p),
    decreases p.len(),
{
    if p.len() > 0 {
        let g = rects_of(width, height, p);
        let q = p.drop_last();
        lemma_cell_count_rects_of(width, height, q);
        let gq = rects_of(width, height, q);
        assert(g.drop_last().len() == gq.len());
        lemma_cell_count_same_shape(g.drop_last(), gq);
    }
}

proof fn lemma_cell_count_same_shape(a: Seq<Seq<(usize, usize)>>, b: Seq<Seq<(usize, usize)>>)
    requires
        a.len() == b.len(),
        forall|i: int| 0 <= i < a.len() ==> #[trigger] a[i].len() == b[i].len(),
    ensures
        cell_count(a) == cell_count(b),
    decreases a.len(),
{
    if a.len() > 0 {
        lemma_cell_count_same_shape(a.drop_last(), b.drop_last());
    }
}

/// Convert one integer partition into a grid of rectangles: one row per
/// part, row `i` holding `p[i]` equal cells of width `width / p[i]` and the
/// common height `height / p.len()`.
pub fn partitioning_to_rects(width: usize, height: usize, partitioning: &[usize]) -> (r: Vec<
    Vec<(usize, usize)>,
>)
    requires
        partitioning@.len() >= 1,
        forall|j: int| 0 <= j < partitioning@.len() ==> 1 <= #[trigger] partitioning@[j],
    ensures
        grid_view(r@) == rects_of(width, height, partitioning@),
        r@.len() == partitioning@.len(),
{
    let ghost p = partitioning@;
    let mut rects: Vec<Vec<(usize, usize)>> = Vec::new();
    let rows = partitioning.len();
    let rect_height = height / rows;
    for i in 0..partitioning.len()
        invariant
            p == partitioning@,
            p.len() >= 1,
            rows == p.len(),
            rect_height == height as int / p.len() as int,
            forall|j: int| 0 <= j < p.len() ==> 1 <= #[trigger] p[j],
            rects@.len() == i,
            grid_view(rects@) =~= rects_of(width, height, p).take(i as int),
    {
        let cols = partitioning[i];
        let rect_width = width / cols;
        let mut row_rects: Vec<(usize, usize)> = Vec::new();
        for k in 0..cols
            invariant
                cols == p[i as int],
                i < p.len(),
                rect_width == width as int / p[i as int] as int,
                rect_height == height as int / p.len() as int,
                row_rects@.len() == k,
                row_rects@ =~= rects_of(width, height, p)[i as int].take(k as int),
        {
            row_rects.push((rect_width, rect_height));
            proof {
                assert(row_rects@ =~= rects_of(width, height, p)[i as int].take(k + 1));
            }
        }
        proof {
            assert(row_rects@ =~= rects_of(width, height, p)[i as int]);
        }
        rects.push(row_rects);
        proof {
            assert(grid_view(rects@) =~= rects_of(width, height, p).take(i + 1));
        }
    }
    proof {
        assert(grid_view(rects@) =~= rects_of(width, height, p));
    }
    rects
}

/// Sum of the widths of the first `j` cells of a row: the x offset of the
/// row's cell `j`.
pub open spec fn row_width_prefix(row: Seq<(usize, usize)>, j: int) -> int
    decreases j,
{
    if j <= 0 {
        0
    } else {
        row_width_prefix(row, j - 1) + row[j - 1].0
    }
}

/// Sum of the heights of the first `i` rows (each row's height is its first
/// cell's height): the y offset of row `i`.
pub open spec fn height_prefix(g: Seq<Seq<(usize, usize)>>, i: int) -> int
    decreases i,
{
    if i <= 0 {
        0
    } else {
        height_prefix(g, i - 1) + g[i - 1][0].1
    }
}

/// The per-cell global origins of a grid, in the same row/column layout:
/// cell `(i, j)` sits at x = sum of widths of cells before it in row `i`,
/// y = sum of the heights of rows before row `i`.
pub open spec fn origins_of(g: Seq<Seq<(usize, usize)>>) -> Seq<Seq<(usize, usize)>> {
    Seq::new(
        g.len(),
        |i: int|
            Seq::new(
                g[i].len(),
                |j: int| (row_width_prefix(g[i], j) as usize, height_prefix(g, i) as usize),
            ),
    )
}

proof fn lemma_row_width_prefix_mono(row: Seq<(usize, usize)>, j: int, k: int)
    requires
        0 <= j <= k,
    ensures
        row_width_prefix(row, j) <= row_width_prefix(row, k),
    decreases k,
{
    if j < k {
        lemma_row_width_prefix_mono(row, j, k - 1);
    }
}

proof fn lemma_height_prefix_mono(g: Seq<Seq<(usize, usize)>>, i: int, k: int)
    requires
        0 <= i <= k,
    ensures
        height_prefix(g, i) <= height_prefix(g, k),
    decreases k,
{
    if i < k {
        lemma_height_prefix_mono(g, i, k - 1);
    }
}

/// Convert a grid of rectangles into the matching grid of global origins by
/// prefix-summing cell widths within each row and row heights across rows.
pub fn create_virtual_screens(partitioning: &[Vec<(usize, usize)>]) -> (r: Vec<
    Vec<(usize, usize)>,
>)
    requires
        forall|i: int| 0 <= i < partitioning@.len() ==> (#[trigger] partitioning@[i]@).len() >= 1,
        forall|i: int|
            0 <= i < partitioning@.len() ==> row_width_prefix(
                #[trigger] partitioning@[i]@,
                partitioning@[i]@.len() as int,
            ) <= usize::MAX,
        height_prefix(grid_view(partitioning@), partitioning@.len() as int) <= usize::MAX,
    ensures
        r@.len() == partitioning@.len(),
        grid_view(r@) == origins_of(grid_view(partitioning@)),
{
    let ghost g = grid_view(partitioning@);
    let mut virtual_screens: Vec<Vec<(usize, usize)>> = Vec::new();
    let mut running_height: usize = 0;
    for i in 0..partitioning.len()
        invariant
            g == grid_view(partitioning@),
            g.len() == partitioning@.len(),
            forall|t: int| 0 <= t < g.len() ==> (#[trigger] g[t]).len() >= 1,
            forall|t: int|
                0 <= t < g.len() ==> row_width_prefix(#[trigger] g[t], g[t].len() as int)
                    <= usize::MAX,
            height_prefix(g, g.len() as int) <= usize::MAX,
            running_height == height_prefix(g, i as int),
            virtual_screens@.len() == i,
            grid_view(virtual_screens@) =~= origins_of(g).take(i as int),
    {
        let row = &partitioning[i];
        assert(g[i as int] == row@);
        let mut running_width: usize = 0;
        let mut row_virt_screens: Vec<(usize, usize)> = Vec::new();
        for j in 0..row.len()
            invariant
                g == grid_view(partitioning@),
                i < g.len(),
                g[i as int] == row@,
                row_width_prefix(row@, row@.len() as int) <= usize::MAX,
                height_prefix(g, g.len() as int) <= usize::MAX,
                running_height == height_prefix(g, i as int),
                running_width == row_width_prefix(row@, j as int),
                row_virt_screens@.len() == j,
                row_virt_screens@ =~= origins_of(g)[i as int].take(j as int),
        {
            row_virt_screens.push((running_width, running_height));
            proof {
                lemma_row_width_prefix_mono(row@, j + 1, row@.len() as int);
                assert(row_virt_screens@ =~= origins_of(g)[i as int].take(j + 1));
            }
            running_width = running_width + row[j].0;
        }
        proof {
            assert(row_virt_screens@ =~= origins_of(g)[i as int]);
            lemma_height_prefix_mono(g, i + 1, g.len() as int);
        }
        running_height = running_height + row[0].1;
        virtual_screens.push(row_virt_screens);
        proof {
            assert(grid_view(virtual_screens@) =~= origins_of(g).take(i + 1));
        }
    }
    proof {
        assert(grid_view(virtual_screens@) =~= origins_of(g));
    }
    virtual_screens
}

proof fn lemma_sum_take_step(s: Seq<usize>, j: int)
    requires
        0 <= j < s.len(),
    ensures
        sum_of(s.take(j + 1)) == sum_of(s.take(j)) + s[j],
{
    let pre = s.take(j + 1);
    assert(pre.drop_last() =~= s.take(j));
    assert(pre.last() == s[j]);
}

proof fn lemma_sum_lower(s: Seq<usize>)
    requires
        forall|t: int| 0 <= t < s.len() ==> 1 <= #[trigger] s[t],
    ensures
        sum_of(s) >= s.len(),
    decreases s.len(),
{
    if s.len() > 0 {
        lemma_sum_lower(s.drop_last());
    }
}

/// The enumeration state of the partition generator read as one ascending
/// composition: the committed prefix `a[0..k]` followed by the pending last
/// part `y + 1`.
spec fn state_of(a: Seq<usize>, k: int, y: int) -> Seq<int> {
    a.take(k).map_values(|v: usize| v as int).push(y + 1)
}

/// Positional weight of a composition under bound `n`: entry `i` weighs
/// `(n - c[i]) * (n+1)^(n-i)`, so that lexicographically later compositions
/// weigh strictly less. This is the generator loop's termination measure.
spec fn weight_from(c: Seq<int>, n: int, i: int) -> int
    decreases c.len() - i,
{
    if i < 0 || i >= c.len() {
        0
    } else {
        (n - c[i]) * pow(n + 1, (n - i) as nat) + weight_from(c, n, i + 1)
    }
}

proof fn lemma_weight_nonneg(c: Seq<int>, n: int, i: int)
    requires
        n >= 1,
        forall|t: int| 0 <= t < c.len() ==> #[trigger] c[t] <= n,
    ensures
        weight_from(c, n, i) >= 0,
    decreases c.len() - i,
{
    if 0 <= i < c.len() {
        lemma_weight_nonneg(c, n, i + 1);
        lemma_pow_positive(n + 1, (n - i) as nat);
        lemma_mul_inequality(0, n - c[i], pow(n + 1, (n - i) as nat));
    }
}

proof fn lemma_weight_upper(c: Seq<int>, n: int, i: int)
    requires
        n >= 1,
        0 <= i,
        c.len() <= n + 1,
        forall|t: int| 0 <= t < c.len() ==> 0 <= #[trigger] c[t] <= n,
    ensures
        weight_from(c, n, i) <= pow(n + 1, (n - i + 1) as nat) - 1,
    decreases c.len() - i,
{
    lemma_pow_positive(n + 1, (n - i + 1) as nat);
    if i < c.len() {
        lemma_weight_upper(c, n, i + 1);
        let p = pow(n + 1, (n - i) as nat);
        lemma_pow_positive(n + 1, (n - i) as nat);
        lemma_mul_inequality(n - c[i], n, p);
        assert(pow(n + 1, (n - i + 1) as nat) == (n + 1) * p) by {
            vstd::arithmetic::power::lemma_pow_adds(n + 1, 1, (n - i) as nat);
            vstd::arithmetic::power::lemma_pow1(n + 1);
        }
        assert(weight_from(c, n, i) == (n - c[i]) * p + weight_from(c, n, i + 1));
        assert((n - c[i]) * p + weight_from(c, n, i + 1) <= n * p + pow(n + 1, (n - i) as nat)
            - 1);
        assert(n * p + p == (n + 1) * p) by (nonlinear_arith);
    }
}

/// Lexicographic order reverses the positional weight: if `c` and `d` agree
/// before position `j` and `c[j] < d[j]`, then `d` weighs strictly less.
proof fn lemma_weight_lex(c: Seq<int>, d: Seq<int>, n: int, i: int, j: int)
    requires
        n >= 1,
        0 <= i <= j,
        j < c.len(),
        j < d.len(),
        c.len() <= n + 1,
        d.len() <= n + 1,
        forall|t: int| 0 <= t < c.len() ==> 0 <= #[trigger] c[t] <= n,
        forall|t: int| 0 <= t < d.len() ==> 0 <= #[trigger] d[t] <= n,
        forall|t: int| i <= t < j ==> #[trigger] c[t] == d[t],
        c[j] < d[j],
    ensures
        weight_from(d, n, i) < weight_from(c, n, i),
    decreases j - i,
{
    let p = pow(n + 1, (n - i) as nat);
    lemma_pow_positive(n + 1, (n - i) as nat);
    if i == j {
        lemma_weight_upper(d, n, i + 1);
        lemma_weight_nonneg(c, n, i + 1);
        assert(pow(n + 1, (n - i - 1 + 1) as nat) == p);
        lemma_mul_inequality(n - d[i] + 1, n - c[i], p);
        assert((n - d[i]) * p + p == (n - d[i] + 1) * p) by (nonlinear_arith);
        assert(weight_from(d, n, i) <= (n - d[i]) * p + p - 1);
    } else {
        lemma_weight_lex(c, d, n, i + 1, j);
    }
}

proof fn lemma_sum_nonneg(s: Seq<usize>)
    ensures
        sum_of(s) >= 0,
    decreases s.len(),
{
    if s.len() > 0 {
        lemma_sum_nonneg(s.drop_last());
    }
}

/// Copy of the first `len` elements of a vector.
fn prefix_vec(a: &Vec<usize>, len: usize) -> (r: Vec<usize>)
    requires
        len <= a@.len(),
    ensures
        r@ == a@.take(len as int),
{
    let mut r: Vec<usize> = Vec::new();
    for t in 0..len
        invariant
            len <= a@.len(),
            r@ =~= a@.take(t as int),
    {
        r.push(a[t]);
        proof {
            assert(r@ =~= a@.take(t + 1));
        }
    }
    proof {
        assert(r@ =~= a@.take(len as int));
    }
    r
}

/// Close the current row of the generator: merge the remaining sum into one
/// final part, emit the resulting partition, and hand back the new pending
/// remainder. Factored out of the generator so each piece carries its own
/// proof.
fn close_row(
    a: &mut Vec<usize>,
    chunks: &mut Vec<Vec<usize>>,
    k: usize,
    x: usize,
    y: usize,
    n: usize,
    Ghost(c0): Ghost<Seq<usize>>,
    Ghost(xm): Ghost<int>,
    Ghost(y0): Ghost<int>,
    Ghost(y2): Ghost<int>,
    Ghost(prev2): Ghost<Seq<usize>>,
    Ghost(emitted): Ghost<bool>,
) -> (r: usize)
    requires
        1 <= n,
        n <= usize::MAX / 2,
        old(a)@.len() == n + 1,
        k + 1 <= n,
        1 <= x,
        x + y <= n,
        y < x,
        forall|q: int| 0 <= q < k ==> 1 <= #[trigger] old(a)@[q] && old(a)@[q] <= n,
        sum_of(old(a)@.take(k as int)) + x + y == n,
        asc_seq(old(a)@.take(k as int)),
        k >= 1 ==> old(a)@[k - 1] <= x,
        1 <= xm <= usize::MAX,
        0 <= y0 < usize::MAX,
        0 <= y2,
        sum_of(c0) + xm + y0 == n,
        c0 + greedy(xm + y0, xm) == old(a)@.take(k as int) + greedy(xm + y2, xm),
        !emitted ==> prev2 == c0 + seq![(xm - 1) as usize, (y0 + 1) as usize] && x as int == xm
            && y as int == y2,
        emitted ==> prev2 == old(a)@.take(k as int) + seq![(x - 1) as usize, (y + 1) as usize],
        emitted_wf(old(chunks)@, n as int, prev2),
    ensures
        final(a)@.len() == n + 1,
        final(a)@.take(k as int) == old(a)@.take(k as int),
        forall|q: int| 0 <= q < k ==> #[trigger] final(a)@[q] == old(a)@[q],
        final(a)@[k as int] == x + y,
        r == x + y - 1,
        final(chunks)@.len() == old(chunks)@.len() + 1,
        sum_of(final(a)@.take(k as int)) + 1 + r == n,
        k == 0 ==> r + 1 == n,
        emitted_wf(final(chunks)@, n as int, state_u(final(a)@, k as int, r as int)),
{
    let s = x + y;
    let ghost a_pre = a@;
    a.set(k, s);
    proof {
        assert(a@.take(k as int) =~= a_pre.take(k as int));
        lemma_sum_take_step(a@, k as int);
    }
    let ghost bseq = a@.take(k as int);
    let chunk = prefix_vec(a, k + 1);
    proof {
        assert forall|t: int| 0 <= t < chunk@.len() implies 1 <= #[trigger] chunk@[t] by {
            assert(chunk@[t] == a@[t]);
        }
        assert(sum_of(chunk@) == n);
        assert(is_partition(chunk@, n as int));
        assert(chunk@ =~= bseq + seq![s]);
        if k >= 1 {
            assert(bseq.last() == a@[k - 1]);
        }
        lemma_asc_extend1(bseq, s);
        assert(is_asc_partition(chunk@, n as int));
    }
    let ghost chunks_pre = chunks@;
    chunks.push(chunk);
    proof {
        assert(chunks@ == chunks_pre.push(chunk));
        lemma_close_step(
            n as int,
            c0,
            xm,
            y0,
            y2,
            bseq,
            prev2,
            emitted,
            chunks_pre,
            chunk,
            x as int,
            s as int,
        );
        assert(emitted_wf(chunks@, n as int, chunk@));
        assert(state_u(a@, k as int, (s - 1) as int) =~= chunk@);
        if k == 0 {
            assert(bseq =~= Seq::<usize>::empty());
            assert(sum_of(bseq) == 0);
        }
    }
    s - 1
}

/// Advance the generator through one row: lift the last committed part,
/// push down equal parts while they fit, and emit every two-part
/// completion, keeping the emitted list complete, ascending and strictly
/// ordered up to its front.
fn split_row(
    a: &mut Vec<usize>,
    chunks: &mut Vec<Vec<usize>>,
    k: usize,
    y: usize,
    n: usize,
) -> (r: (usize, usize, usize, Ghost<(int, Seq<usize>, bool)>))
    requires
        1 <= n,
        n <= usize::MAX / 2,
        old(a)@.len() == n + 1,
        1 <= k <= n,
        y < n,
        forall|q: int| 0 <= q < k - 1 ==> 1 <= #[trigger] old(a)@[q],
        forall|q: int| 0 <= q < k ==> #[trigger] old(a)@[q] <= n,
        sum_of(old(a)@.take(k as int)) + 1 + y == n,
        asc_seq(old(a)@.take(k as int)),
        old(a)@[k - 1] <= y + 1,
        emitted_wf(old(chunks)@, n as int, state_u(old(a)@, k as int, y as int)),
    ensures
        final(a)@.len() == n + 1,
        r.0 + 1 <= n,
        1 <= r.1,
        r.1 + r.2 <= n,
        r.2 < r.1,
        k - 1 <= r.0,
        forall|q: int| 0 <= q < r.0 ==> 1 <= #[trigger] final(a)@[q] && final(a)@[q] <= n,
        sum_of(final(a)@.take(r.0 as int)) + r.1 + r.2 == n,
        asc_seq(final(a)@.take(r.0 as int)),
        r.0 >= 1 ==> final(a)@[r.0 - 1] <= r.1,
        final(a)@.take(k - 1) == old(a)@.take(k - 1),
        r.0 > k - 1 ==> final(a)@[k - 1] == old(a)@[k - 1] + 1,
        r.0 == k - 1 ==> r.1 + r.2 == old(a)@[k - 1] + 1 + y,
        sum_of(old(a)@.take(k - 1)) + (old(a)@[k - 1] + 1) + y == n,
        0 <= r.3@.0,
        old(a)@.take(k - 1) + greedy(old(a)@[k - 1] + 1 + y, old(a)@[k - 1] + 1) == final(a)@.take(
            r.0 as int,
        ) + greedy(old(a)@[k - 1] + 1 + r.3@.0, old(a)@[k - 1] + 1),
        !r.3@.2 ==> r.3@.1 == old(a)@.take(k - 1) + seq![
            old(a)@[k - 1],
            (y + 1) as usize,
        ] && r.1 == old(a)@[k - 1] + 1 && r.2 as int == r.3@.0,
        r.3@.2 ==> r.3@.1 == final(a)@.take(r.0 as int) + seq![
            (r.1 - 1) as usize,
            (r.2 + 1) as usize,
        ],
        emitted_wf(final(chunks)@, n as int, r.3@.1),
{
    let mut k = k;
    let mut y = y;
    let ghost a0 = a@;
    let ghost k0 = k as int;
    let ghost y0 = y as int;
    let ghost c0 = a0.take(k0 - 1);
    let ghost prev_em = state_u(a0, k0, y0);

    let mut x = a[k - 1] + 1;
    k = k - 1;
    let ghost xm = x as int;
    proof {
        lemma_sum_take_step(a@, k0 - 1);
        lemma_sum_nonneg(a@.take(k0 - 1));
        assert(sum_of(a@.take(k as int)) + x + y == n);
        assert(a@.take(k0 - 1) =~= a@.take(k0).take(k0 - 1));
        lemma_asc_prefix(a@.take(k0), k0 - 1);
        if k0 >= 2 {
            assert(a@.take(k0)[k0 - 2] <= a@.take(k0)[k0 - 1]);
            assert(a@[k0 - 2] <= a@[k0 - 1]);
        }
        assert(a0.take(k0) =~= c0.push(a0[k0 - 1]));
        assert(prev_em =~= c0 + seq![(xm - 1) as usize, (y0 + 1) as usize]);
        assert(sum_of(c0) + xm + y0 == n);
        assert(a@.take(k as int) + greedy(x as int + y as int, xm) =~= c0 + greedy(
            xm + y0,
            xm,
        ));
    }

    while 2 * x <= y
        invariant
            1 <= n,
            n <= usize::MAX / 2,
            a@.len() == n + 1,
            1 <= x,
            x <= n,
            y <= n,
            k <= n,
            forall|q: int| 0 <= q < k ==> 1 <= #[trigger] a@[q] && a@[q] <= n,
            sum_of(a@.take(k as int)) + x + y == n,
            k0 - 1 <= k,
            1 <= k0,
            a@.take(k0 - 1) =~= a0.take(k0 - 1),
            k > k0 - 1 ==> a@[k0 - 1] == a0[k0 - 1] + 1,
            k == k0 - 1 ==> y == y0,
            x == a0[k0 - 1] + 1,
            x as int == xm,
            a@.take(k as int) + greedy(x as int + y as int, xm) =~= c0 + greedy(
                xm + y0,
                xm,
            ),
            asc_seq(a@.take(k as int)),
            k >= 1 ==> a@[k - 1] <= x,
            emitted_wf(chunks@, n as int, prev_em),
        decreases y,
    {
        proof {
            assert forall|t: int| 0 <= t < k as int implies 1 <= #[trigger] a@.take(
                k as int,
            )[t] by {
                assert(a@.take(k as int)[t] == a@[t]);
            }
            lemma_sum_lower(a@.take(k as int));
        }
        let ghost a_pre = a@;
        a.set(k, x);
        proof {
            assert(a@.take(k as int) =~= a_pre.take(k as int));
            lemma_sum_take_step(a@, k as int);
            assert(a@.take(k0 - 1) =~= a_pre.take(k0 - 1));
            assert(greedy(x as int + y as int, xm) == seq![x] + greedy(
                y as int,
                xm,
            )) by {
                assert(x as int + y as int >= 2 * xm);
                assert((x as int + y as int) - xm == y as int);
            }
            assert(a@.take(k + 1) =~= a_pre.take(k as int) + seq![x]);
            assert(a@.take(k + 1) + greedy(y as int, xm) =~= a_pre.take(k as int) + greedy(
                x as int + y as int,
                xm,
            ));
            if k >= 1 {
                assert(a_pre.take(k as int).last() == a_pre[k - 1]);
            }
            lemma_asc_extend1(a_pre.take(k as int), x);
            assert(asc_seq(a@.take(k + 1)));
        }
        y = y - x;
        k = k + 1;
    }

    proof {
        assert forall|t: int| 0 <= t < k as int implies 1 <= #[trigger] a@.take(
            k as int,
        )[t] by {
            assert(a@.take(k as int)[t] == a@[t]);
        }
        lemma_sum_lower(a@.take(k as int));
        lemma_sum_nonneg(a@.take(k as int));
    }
    let l = k + 1;
    let ghost bseq = a@.take(k as int);
    let ghost y2 = y as int;
    let ghost mut prev2 = prev_em;
    let ghost mut emitted = false;

    while x <= y
        invariant
            1 <= n,
            n <= usize::MAX / 2,
            a@.len() == n + 1,
            l == k + 1,
            k + 1 <= n,
            1 <= x,
            x + y <= n,
            forall|q: int| 0 <= q < k ==> 1 <= #[trigger] a@[q] && a@[q] <= n,
            sum_of(a@.take(k as int)) + x + y == n,
            k0 - 1 <= k,
            1 <= k0,
            a@.take(k0 - 1) =~= a0.take(k0 - 1),
            k > k0 - 1 ==> a@[k0 - 1] == a0[k0 - 1] + 1,
            k == k0 - 1 ==> x + y == a0[k0 - 1] + 1 + y0,
            a@.take(k as int) == bseq,
            2 * (x as int) > y as int,
            x as int + y as int == xm + y2,
            1 <= xm <= usize::MAX,
            0 <= y0 < usize::MAX,
            0 <= y2,
            xm <= x as int,
            sum_of(c0) + xm + y0 == n,
            prev_em == c0 + seq![(xm - 1) as usize, (y0 + 1) as usize],
            c0 + greedy(xm + y0, xm) == bseq + greedy(xm + y2, xm),
            (!emitted && prev2 == prev_em && x as int == xm && y as int == y2) || (emitted
                && prev2 == bseq + seq![(x - 1) as usize, (y + 1) as usize]),
            asc_seq(bseq),
            k >= 1 ==> a@[k - 1] <= x,
            emitted_wf(chunks@, n as int, prev2),
        decreases (if x <= y {
            y + 1 - x
        } else {
            0
        }),
    {
        let ghost a_pre = a@;
        a.set(k, x);
        a.set(l, y);
        proof {
            assert(a@.take(k as int) =~= a_pre.take(k as int));
            assert(a@.take(k0 - 1) =~= a_pre.take(k0 - 1));
            lemma_sum_take_step(a@, k as int);
            lemma_sum_take_step(a@, k + 1);
        }
        let chunk = prefix_vec(a, k + 2);
        proof {
            assert forall|t: int| 0 <= t < chunk@.len() implies 1 <= #[trigger] chunk@[t] by {
                assert(chunk@[t] == a@[t]);
            }
            assert(sum_of(chunk@) == n);
            assert(is_partition(chunk@, n as int));
            assert(chunk@ =~= bseq + seq![x, y]);
            if k >= 1 {
                assert(bseq.last() == a@[k - 1]);
            }
            lemma_asc_extend2(bseq, x, y);
            assert(is_asc_partition(chunk@, n as int));
        }
        let ghost chunks_pre = chunks@;
        chunks.push(chunk);
        proof {
            assert(chunk@ =~= bseq + seq![x, y]);
            lemma_greedy_pair(x as int, y as int);
            assert(chunks@ == chunks_pre.push(chunk));
            if !emitted {
                assert(x as int == xm && y as int == y2);
                assert(greedy(xm + y2, xm) =~= seq![x, y]);
                assert(chunk@ =~= c0 + greedy(xm + y0, xm));
                lemma_emit_step(n as int, c0, xm, y0, chunks_pre, chunk, prev2);
            } else {
                assert(chunk@ =~= bseq + greedy(x as int + y as int, x as int));
                lemma_emit_step(n as int, bseq, x as int, y as int, chunks_pre, chunk, prev2);
            }
            prev2 = chunk@;
            emitted = true;
        }
        x = x + 1;
        y = y - 1;
        proof {
            assert(prev2 == bseq + seq![(x - 1) as usize, (y + 1) as usize]);
        }
    }
    (k, x, y, Ghost((y2, prev2, emitted)))
}

/// Enumerate every integer partition of `n`: each returned chunk is a
/// non-empty list of positive parts summing to `n`. Uses the accelerated
/// ascending-composition generator: a mutable array of part sizes is advanced
/// in place, emitting one partition per step at amortized linear cost, in
/// ascending lexicographic order.
#[verifier::rlimit(100)]
pub fn integer_partitioning(n: usize) -> (r: Vec<Vec<usize>>)
    requires
        1 <= n,
        n <= usize::MAX / 2,
    ensures
        r@.len() >= 1,
        forall|i: int| 0 <= i < r@.len() ==> is_asc_partition((#[trigger] r@[i])@, n as int),
        forall|i: int, j: int|
            0 <= i < j < r@.len() ==> lex_lt((#[trigger] r@[i])@, (#[trigger] r@[j])@),
        forall|q: Seq<usize>| #[trigger] is_asc_partition(q, n as int) ==> chunks_has(r@, q),
{
    let mut chunks: Vec<Vec<usize>> = Vec::new();

    let mut a: Vec<usize> = Vec::new();
    for t in 0..n + 1
        invariant
            a@.len() == t,
            forall|q: int| 0 <= q < t ==> #[trigger] a@[q] == 0,
    {
        a.push(0);
    }

    let mut k: usize = 1;
    let mut y: usize = n - 1;

    proof {
        lemma_sum_take_step(a@, 0);
        assert(a@.take(0) =~= Seq::<usize>::empty());
        let st = state_u(a@, 1, (n - 1) as int);
        assert(a@.take(1) =~= seq![0usize]);
        assert(st =~= seq![0usize, n]);
        lemma_emitted_wf_init(n as int);
        assert(chunks@ =~= Seq::<Vec<usize>>::empty());
        assert(emitted_wf(chunks@, n as int, state_u(a@, k as int, y as int)));
        assert(asc_seq(a@.take(1)));
    }

    while k != 0
        invariant
            1 <= n,
            n <= usize::MAX / 2,
            a@.len() == n + 1,
            k <= n,
            y < n,
            forall|q: int| 0 <= q < k - 1 ==> 1 <= #[trigger] a@[q],
            forall|q: int| 0 <= q < k ==> #[trigger] a@[q] <= n,
            k >= 1 ==> sum_of(a@.take(k as int)) + 1 + y == n,
            k == 0 ==> chunks@.len() >= 1,
            k == 0 ==> y + 1 == n,
            asc_seq(a@.take(k as int)),
            k >= 1 ==> a@[k - 1] <= y + 1,
            emitted_wf(chunks@, n as int, state_u(a@, k as int, y as int)),
        decreases weight_from(state_of(a@, k as int, y as int), n as int, 0),
    {
        let ghost a0 = a@;
        let ghost k0 = k as int;
        let ghost y0 = y as int;

        let res = split_row(&mut a, &mut chunks, k, y, n);
        k = res.0;
        let x = res.1;
        y = res.2;
        let ghost pack = res.3@;

        let ghost a_mid = a@;
        y = close_row(
            &mut a,
            &mut chunks,
            k,
            x,
            y,
            n,
            Ghost(a0.take(k0 - 1)),
            Ghost(a0[k0 - 1] + 1),
            Ghost(y0),
            Ghost(pack.0),
            Ghost(pack.1),
            Ghost(pack.2),
        );

        proof {
            assert(a@.take(k as int) =~= a_mid.take(k as int));
            assert(a@.take(k0 - 1) =~= a_mid.take(k0 - 1));
            assert(a_mid.take(k0 - 1) =~= a0.take(k0 - 1)) by {
                assert forall|t: int| 0 <= t < k0 - 1 implies #[trigger] a_mid.take(k0 - 1)[t]
                    == a0.take(k0 - 1)[t] by {
                    assert(a_mid.take(k as int)[t] == a0.take(k0 - 1)[t]);
                }
            }
            lemma_weight_step(n as int, a0, k0, y0, a@, k as int, y as int);
        }
    }

    proof {
        assert(a@.take(0) =~= Seq::<usize>::empty());
        let st = state_u(a@, 0, y as int);
        assert(st =~= seq![n]);
        assert(emitted_wf(chunks@, n as int, seq![(n as int) as usize]));
        lemma_emitted_wf_final(chunks@, n as int);
    }

    chunks
}

/// The larger of a screen's two dimensions.
pub open spec fn max_dim(width: usize, height: usize) -> int {
    if width >= height {
        width as int
    } else {
        height as int
    }
}

proof fn lemma_row_cells_bound(row: Seq<(usize, usize)>, m: int)
    requires
        m >= 0,
        forall|j: int| 0 <= j < row.len() ==> cell_score(#[trigger] row[j]) <= m,
    ensures
        row_score(row) <= row.len() * m,
    decreases row.len(),
{
    if row.len() > 0 {
        lemma_row_cells_bound(row.drop_last(), m);
        assert((row.len() - 1) * m + m == row.len() * m) by (nonlinear_arith);
    }
}

proof fn lemma_grid_cells_bound(g: Seq<Seq<(usize, usize)>>, m: int)
    requires
        m >= 0,
        forall|i: int, j: int|
            0 <= i < g.len() && 0 <= j < g[i].len() ==> cell_score(#[trigger] g[i][j]) <= m,
    ensures
        grid_score(g) <= cell_count(g) * m,
    decreases g.len(),
{
    if g.len() > 0 {
        lemma_grid_cells_bound(g.drop_last(), m);
        lemma_row_cells_bound(g.last(), m);
        assert(cell_count(g.drop_last()) * m + g.last().len() * m == (cell_count(g.drop_last())
            + g.last().len()) * m) by (nonlinear_arith);
        lemma_cell_count_nonneg(g);
    }
}

proof fn lemma_cell_count_nonneg(g: Seq<Seq<(usize, usize)>>)
    ensures
        cell_count(g) >= 0,
    decreases g.len(),
{
    if g.len() > 0 {
        lemma_cell_count_nonneg(g.drop_last());
    }
}

/// Every cell of a materialized grid scores at most the squared larger
/// screen dimension, so a whole candidate's score is at most
/// `sum_of(parts) * max_dim^2`.
proof fn lemma_rects_score_bound(width: usize, height: usize, p: Seq<usize>)
    requires
        forall|j: int| 0 <= j < p.len() ==> 1 <= #[trigger] p[j],
    ensures
        grid_score(rects_of(width, height, p)) <= sum_of(p) * max_dim(width, height) * max_dim(
            width,
            height,
        ),
{
    let m = max_dim(width, height);
    let g = rects_of(width, height, p);
    assert forall|i: int, j: int|
        0 <= i < g.len() && 0 <= j < g[i].len() implies cell_score(#[trigger] g[i][j]) <= m
        * m by {
        let d = width as int / p[i] as int;
        let e = height as int / p.len() as int;
        vstd::arithmetic::div_mod::lemma_div_nonincreasing(width as int, p[i] as int);
        vstd::arithmetic::div_mod::lemma_div_pos_is_pos(width as int, p[i] as int);
        vstd::arithmetic::div_mod::lemma_div_nonincreasing(height as int, p.len() as int);
        vstd::arithmetic::div_mod::lemma_div_pos_is_pos(height as int, p.len() as int);
        assert((d - e) * (d - e) <= m * m) by (nonlinear_arith)
            requires
                0 <= d <= m,
                0 <= e <= m,
        ;
    }
    lemma_grid_cells_bound(g, m * m);
    assert(m * m >= 0) by (nonlinear_arith);
    lemma_cell_count_rects_of(width, height, p);
    assert(sum_of(p) * (m * m) == sum_of(p) * m * m) by (nonlinear_arith);
}

/// Index of the best candidate tiling: the first one whose squareness score
/// reaches the minimum over all enumerated candidates. Ties are broken by
/// generation order.
pub fn select_best(candidates: &Vec<Vec<Vec<(usize, usize)>>>) -> (best: usize)
    requires
        candidates@.len() >= 1,
        forall|j: int|
            0 <= j < candidates@.len() ==> grid_score(grid_view((#[trigger] candidates@[j])@))
                <= isize::MAX,
    ensures
        best < candidates@.len(),
        forall|j: int|
            0 <= j < candidates@.len() ==> grid_score(grid_view(candidates@[best as int]@))
                <= grid_score(grid_view((#[trigger] candidates@[j])@)),
        forall|j: int|
            0 <= j < best ==> grid_score(grid_view((#[trigger] candidates@[j])@)) > grid_score(
                grid_view(candidates@[best as int]@),
            ),
{
    let mut best: usize = 0;
    let mut best_score = squareness(candidates[0].as_slice());
    for i in 1..candidates.len()
        invariant
            candidates@.len() >= 1,
            forall|j: int|
                0 <= j < candidates@.len() ==> grid_score(grid_view((#[trigger] candidates@[j])@))
                    <= isize::MAX,
            best < i,
            best_score == grid_score(grid_view(candidates@[best as int]@)),
            forall|j: int|
                0 <= j < i ==> best_score <= grid_score(grid_view((#[trigger] candidates@[j])@)),
            forall|j: int|
                0 <= j < best ==> grid_score(grid_view((#[trigger] candidates@[j])@)) > best_score,
    {
        let score = squareness(candidates[i].as_slice());
        if score < best_score {
            best = i;
            best_score = score;
        }
    }
    best
}

/// Find the best tiling of a `width` x `height` screen into `sections`
/// rectangular cells: enumerate every integer partition of `sections`,
/// materialize each into a candidate grid, and return the first candidate
/// with the minimum squareness score. The returned grid's flattened cell
/// count always equals `sections`.
#[verifier::rlimit(100)]
pub fn create_partitioning(width: usize, height: usize, sections: usize) -> (r: Vec<
    Vec<(usize, usize)>,
>)
    requires
        1 <= sections,
        sections <= usize::MAX / 2,
        sections * max_dim(width, height) * max_dim(width, height) <= isize::MAX,
    ensures
        exists|p: Seq<usize>|
            is_partition(p, sections as int) && grid_view(r@) == #[trigger] rects_of(
                width,
                height,
                p,
            ),
        exists|p: Seq<usize>|
            {
                &&& is_asc_partition(p, sections as int)
                &&& grid_view(r@) == #[trigger] rects_of(width, height, p)
                &&& (forall|q: Seq<usize>|
                    #[trigger] is_asc_partition(q, sections as int) && lex_lt(q, p)
                        ==> grid_score(rects_of(width, height, q)) > grid_score(grid_view(r@)))
            },
        cell_count(grid_view(r@)) == sections,
        forall|q: Seq<usize>|
            #[trigger] is_asc_partition(q, sections as int) ==> grid_score(grid_view(r@))
                <= grid_score(rects_of(width, height, q)),
{
    let partitioning = integer_partitioning(sections);
    let mut candidates: Vec<Vec<Vec<(usize, usize)>>> = Vec::new();
    for i in 0..partitioning.len()
        invariant
            forall|j: int|
                0 <= j < partitioning@.len() ==> is_partition(
                    (#[trigger] partitioning@[j])@,
                    sections as int,
                ),
            sections * max_dim(width, height) * max_dim(width, height) <= isize::MAX,
            candidates@.len() == i,
            forall|j: int|
                0 <= j < i ==> grid_view((#[trigger] candidates@[j])@) == rects_of(
                    width,
                    height,
                    partitioning@[j]@,
                ),
            forall|j: int|
                0 <= j < i ==> grid_score(grid_view((#[trigger] candidates@[j])@)) <= isize::MAX,
    {
        let grid = partitioning_to_rects(width, height, partitioning[i].as_slice());
        proof {
            lemma_rects_score_bound(width, height, partitioning@[i as int]@);
            let m = max_dim(width, height);
            lemma_mul_inequality(
                sum_of(partitioning@[i as int]@),
                sections as int,
                m * m,
            );
            assert(sections * m * m == (sections * m) * m) by (nonlinear_arith);
            assert(sum_of(partitioning@[i as int]@) * (m * m) == sum_of(partitioning@[i as int]@)
                * m * m) by (nonlinear_arith);
            assert(sections as int * (m * m) == sections * m * m) by (nonlinear_arith);
        }
        candidates.push(grid);
    }
    let best = select_best(&candidates);
    let ghost cands = candidates@;
    let mut candidates = candidates;
    let r = candidates.swap_remove(best);
    proof {
        let p = partitioning@[best as int]@;
        assert(is_partition(p, sections as int) && grid_view(r@) == rects_of(width, height, p));
        lemma_cell_count_rects_of(width, height, p);
        assert forall|q: Seq<usize>| #[trigger] is_asc_partition(q, sections as int) implies
            grid_score(grid_view(r@)) <= grid_score(rects_of(width, height, q)) by {
            assert(chunks_has(partitioning@, q));
            let i = choose|i: int|
                0 <= i < partitioning@.len() && (#[trigger] partitioning@[i])@ == q;
            assert(grid_view(cands[i]@) == rects_of(width, height, q));
            assert(grid_score(grid_view(cands[best as int]@)) <= grid_score(grid_view(cands[i]@)));
        }
        assert forall|q: Seq<usize>|
            #[trigger] is_asc_partition(q, sections as int) && lex_lt(q, p) implies grid_score(
            rects_of(width, height, q),
        ) > grid_score(grid_view(r@)) by {
            assert(chunks_has(partitioning@, q));
            let i = choose|i: int|
                0 <= i < partitioning@.len() && (#[trigger] partitioning@[i])@ == q;
            if i == best as int {
                assert(q == p);
                assert(false);
            }
            if i > best as int {
                assert(lex_lt(partitioning@[best as int]@, partitioning@[i]@));
                lemma_lex_antisym(q, p);
                assert(false);
            }
            assert(i < best as int);
            assert(grid_score(grid_view((#[trigger] cands[i])@)) > grid_score(
                grid_view(cands[best as int]@),
            ));
            assert(grid_view(cands[i]@) == rects_of(width, height, q));
        }
        assert(is_asc_partition(p, sections as int));
    }
    r
}

/// A sequence of parts listed in non-decreasing order.
pub open spec fn asc_seq(s: Seq<usize>) -> bool {
    forall|t: int| 0 <= t < s.len() - 1 ==> #[trigger] s[t] <= s[t + 1]
}

/// An ascending partition of `n`: a partition whose parts are listed in
/// non-decreasing order. Every multiset of parts has exactly one such
/// listing, which is the form the enumerator emits.
pub open spec fn is_asc_partition(q: Seq<usize>, n: int) -> bool {
    &&& is_partition(q, n)
    &&& asc_seq(q)
}

proof fn lemma_asc_prefix(s: Seq<usize>, j: int)
    requires
        asc_seq(s),
        0 <= j <= s.len(),
    ensures
        asc_seq(s.take(j)),
{
    assert forall|t: int| 0 <= t < j - 1 implies #[trigger] s.take(j)[t] <= s.take(j)[t + 1] by {
        assert(s.take(j)[t] == s[t] && s.take(j)[t + 1] == s[t + 1]);
        assert(s[t] <= s[t + 1]);
    }
}

proof fn lemma_asc_extend1(b: Seq<usize>, u: usize)
    requires
        asc_seq(b),
        b.len() >= 1 ==> b.last() <= u,
    ensures
        asc_seq(b + seq![u]),
{
    let s = b + seq![u];
    assert forall|t: int| 0 <= t < s.len() - 1 implies #[trigger] s[t] <= s[t + 1] by {
        if t < b.len() - 1 {
            assert(s[t] == b[t] && s[t + 1] == b[t + 1]);
            assert(b[t] <= b[t + 1]);
        } else {
            assert(s[t] == b.last() && s[t + 1] == u);
        }
    }
}

proof fn lemma_asc_extend2(b: Seq<usize>, u: usize, v: usize)
    requires
        asc_seq(b),
        b.len() >= 1 ==> b.last() <= u,
        u <= v,
    ensures
        asc_seq(b + seq![u, v]),
{
    lemma_asc_extend1(b, u);
    lemma_asc_extend1(b + seq![u], v);
    assert((b + seq![u]) + seq![v] =~= b + seq![u, v]);
}

/// Lexicographic order on part lists, with a proper prefix ordered before
/// its extensions.
pub open spec fn lex_le(a: Seq<usize>, b: Seq<usize>) -> bool
    decreases a.len(),
{
    if a.len() == 0 {
        true
    } else if b.len() == 0 {
        false
    } else if a[0] < b[0] {
        true
    } else if a[0] > b[0] {
        false
    } else {
        lex_le(a.drop_first(), b.drop_first())
    }
}

/// Strict lexicographic order.
pub open spec fn lex_lt(a: Seq<usize>, b: Seq<usize>) -> bool {
    lex_le(a, b) && a != b
}

/// The list of emitted chunks holds `q`.
pub open spec fn chunks_has(chunks: Seq<Vec<usize>>, q: Seq<usize>) -> bool {
    exists|i: int| 0 <= i < chunks.len() && (#[trigger] chunks[i])@ == q
}

proof fn lemma_lex_refl(a: Seq<usize>)
    ensures
        lex_le(a, a),
    decreases a.len(),
{
    if a.len() > 0 {
        lemma_lex_refl(a.drop_first());
    }
}

proof fn lemma_lex_total(a: Seq<usize>, b: Seq<usize>)
    ensures
        lex_le(a, b) || lex_le(b, a),
    decreases a.len(),
{
    if a.len() > 0 && b.len() > 0 && a[0] == b[0] {
        lemma_lex_total(a.drop_first(), b.drop_first());
    }
}

proof fn lemma_lex_antisym(a: Seq<usize>, b: Seq<usize>)
    requires
        lex_le(a, b),
        lex_le(b, a),
    ensures
        a == b,
    decreases a.len(),
{
    if a.len() == 0 {
        assert(b.len() == 0);
        assert(a =~= b);
    } else {
        assert(a[0] == b[0]);
        lemma_lex_antisym(a.drop_first(), b.drop_first());
        assert(a.len() == b.len());
        assert forall|t: int| 0 <= t < a.len() implies a[t] == b[t] by {
            if t > 0 {
                assert(a.drop_first()[t - 1] == b.drop_first()[t - 1]);
            }
        }
        assert(a =~= b);
    }
}

proof fn lemma_lex_le_trans(a: Seq<usize>, b: Seq<usize>, c: Seq<usize>)
    requires
        lex_le(a, b),
        lex_le(b, c),
    ensures
        lex_le(a, c),
    decreases a.len(),
{
    if a.len() > 0 {
        assert(b.len() > 0);
        assert(c.len() > 0);
        if a[0] == c[0] {
            assert(a[0] == b[0] && b[0] == c[0]);
            lemma_lex_le_trans(a.drop_first(), b.drop_first(), c.drop_first());
        }
    }
}

proof fn lemma_lex_lt_trans(a: Seq<usize>, b: Seq<usize>, c: Seq<usize>)
    requires
        lex_lt(a, b),
        lex_lt(b, c),
    ensures
        lex_lt(a, c),
{
    lemma_lex_le_trans(a, b, c);
    if a == c {
        lemma_lex_antisym(b, c);
    }
}

proof fn lemma_lex_lt_append(c: Seq<usize>, a: Seq<usize>, b: Seq<usize>)
    requires
        lex_lt(a, b),
    ensures
        lex_lt(c + a, c + b),
    decreases c.len(),
{
    if c.len() == 0 {
        assert(c + a =~= a);
        assert(c + b =~= b);
    } else {
        lemma_lex_lt_append(c.drop_first(), a, b);
        assert((c + a).drop_first() =~= c.drop_first() + a);
        assert((c + b).drop_first() =~= c.drop_first() + b);
        assert((c + a)[0] == c[0] && (c + b)[0] == c[0]);
        assert(lex_le(c + a, c + b));
        if c + a == c + b {
            assert((c + a).drop_first() == (c + b).drop_first());
        }
    }
}

proof fn lemma_greedy_single(s: int, v: int)
    requires
        1 <= v,
        s < 2 * v,
        0 <= s <= usize::MAX,
    ensures
        greedy(s, v) == seq![s as usize],
{
}

proof fn lemma_greedy_pair(v: int, w: int)
    requires
        1 <= v <= w,
        w < 2 * v,
        v <= usize::MAX,
        w <= usize::MAX,
    ensures
        greedy(v + w, v) == seq![v as usize, w as usize],
{
    assert(v + w >= 2 * v);
    assert(greedy(v + w, v) == seq![v as usize] + greedy(w, v));
    lemma_greedy_single(w, v);
    assert(seq![v as usize] + seq![w as usize] =~= seq![v as usize, w as usize]);
}

proof fn lemma_greedy_head(s: int, v: int)
    requires
        1 <= v <= s <= usize::MAX,
    ensures
        greedy(s, v).len() >= 1,
        greedy(s, v)[0] >= v,
{
    if s < 2 * v {
        assert(greedy(s, v) == seq![s as usize]);
        assert(greedy(s, v)[0] == s);
    } else {
        assert(greedy(s, v) == seq![v as usize] + greedy(s - v, v));
        assert(greedy(s, v)[0] == v);
    }
}

/// If `q` lies strictly between two lists sharing the prefix `c`, then `q`
/// extends `c`, and its continuation lies in the same window over the tails.
proof fn lemma_lex_extends(c: Seq<usize>, p: Seq<usize>, e: Seq<usize>, q: Seq<usize>)
    requires
        lex_lt(c + p, q),
        lex_le(q, c + e),
        p.len() >= 1,
    ensures
        q.len() > c.len(),
        q.take(c.len() as int) == c,
        lex_lt(p, q.skip(c.len() as int)),
        lex_le(q.skip(c.len() as int), e),
    decreases c.len(),
{
    if c.len() == 0 {
        assert(c + p =~= p);
        assert(c + e =~= e);
        assert(q.skip(0) =~= q);
        assert(q.take(0) =~= c);
        assert(q.len() >= 1) by {
            if q.len() == 0 {
                assert(lex_le(q, c + p));
                lemma_lex_antisym(c + p, q);
            }
        }
    } else {
        let cp = c + p;
        let ce = c + e;
        assert(cp.len() >= 1 && ce.len() >= 1);
        assert(cp[0] == c[0] && ce[0] == c[0]);
        assert(q.len() >= 1) by {
            if q.len() == 0 {
                assert(lex_le(q, cp));
                lemma_lex_antisym(cp, q);
            }
        }
        assert(q[0] == c[0]) by {
            if q[0] < c[0] {
                assert(!lex_le(cp, q));
            }
            if q[0] > c[0] {
                assert(!lex_le(q, ce));
            }
        }
        assert(cp.drop_first() =~= c.drop_first() + p);
        assert(ce.drop_first() =~= c.drop_first() + e);
        assert(lex_lt(c.drop_first() + p, q.drop_first())) by {
            assert(lex_le(cp, q));
            assert(lex_le(cp.drop_first(), q.drop_first()));
            if c.drop_first() + p == q.drop_first() {
                assert(q.drop_first() == cp.drop_first());
                assert(q.len() == cp.len());
                assert forall|t: int| 0 <= t < q.len() implies q[t] == cp[t] by {
                    if t > 0 {
                        assert(q.drop_first()[t - 1] == cp.drop_first()[t - 1]);
                    }
                }
                assert(cp =~= q);
            }
        }
        lemma_lex_extends(c.drop_first(), p, e, q.drop_first());
        assert(q.take(c.len() as int) =~= c) by {
            assert(q.drop_first().take(c.len() - 1) == c.drop_first());
            assert forall|t: int| 0 <= t < c.len() implies q.take(c.len() as int)[t]
                == c[t] by {
                if t > 0 {
                    assert(q.drop_first().take(c.len() - 1)[t - 1] == c.drop_first()[t - 1]);
                }
            }
        }
        assert(q.drop_first().skip(c.len() - 1) =~= q.skip(c.len() as int));
    }
}

/// The lexicographically least ascending part list with parts at least `v`
/// summing to `s`: split off parts of size `v` while at least `2v` remains,
/// then close with one final part.
pub open spec fn greedy(s: int, v: int) -> Seq<usize>
    decreases s,
{
    if v < 1 || s < 2 * v {
        seq![s as usize]
    } else {
        seq![v as usize] + greedy(s - v, v)
    }
}

proof fn lemma_sum_front(t: Seq<usize>)
    requires
        t.len() >= 1,
    ensures
        sum_of(t) == t[0] + sum_of(t.drop_first()),
    decreases t.len(),
{
    if t.len() == 1 {
        assert(t.drop_last() =~= Seq::<usize>::empty());
        assert(t.drop_first() =~= Seq::<usize>::empty());
    } else {
        lemma_sum_front(t.drop_last());
        assert(t.drop_last().drop_first() =~= t.drop_first().drop_last());
        assert(t.drop_first().last() == t.last());
    }
}

proof fn lemma_sum_ge_first(t: Seq<usize>)
    requires
        t.len() >= 1,
        forall|u: int| 0 <= u < t.len() ==> 1 <= #[trigger] t[u],
    ensures
        sum_of(t) >= t[0] + t.len() - 1,
{
    lemma_sum_front(t);
    lemma_sum_lower(t.drop_first());
}

proof fn lemma_asc_ge_first(t: Seq<usize>, u: int)
    requires
        0 <= u < t.len(),
        forall|w: int| 0 <= w < t.len() - 1 ==> #[trigger] t[w] <= t[w + 1],
    ensures
        t[0] <= t[u],
    decreases u,
{
    if u > 0 {
        lemma_asc_ge_first(t, u - 1);
        assert(t[u - 1] <= t[u]);
    }
}

proof fn lemma_eq_head_tail(a: Seq<usize>, b: Seq<usize>)
    requires
        a.len() >= 1,
        b.len() >= 1,
        a[0] == b[0],
        a.drop_first() == b.drop_first(),
    ensures
        a == b,
{
    assert(a.drop_first().len() == a.len() - 1);
    assert(b.drop_first().len() == b.len() - 1);
    assert(a.len() == b.len());
    assert forall|t: int| 0 <= t < a.len() implies a[t] == b[t] by {
        if t > 0 {
            assert(a.drop_first()[t - 1] == a[t]);
            assert(b.drop_first()[t - 1] == b[t]);
            assert(a.drop_first()[t - 1] == b.drop_first()[t - 1]);
        }
    }
    assert(a =~= b);
}

/// Among the ascending part lists with parts at least `v` summing to `s`,
/// the greedy one is lexicographically least, and nothing else compares at
/// or below it.
proof fn lemma_greedy_min(s: int, v: int, t: Seq<usize>)
    requires
        1 <= v <= s,
        t.len() >= 1,
        sum_of(t) == s,
        forall|u: int| 0 <= u < t.len() ==> 1 <= #[trigger] t[u],
        forall|u: int| 0 <= u < t.len() - 1 ==> #[trigger] t[u] <= t[u + 1],
        v <= t[0],
    ensures
        lex_le(greedy(s, v), t),
        lex_le(t, greedy(s, v)) ==> t == greedy(s, v),
    decreases t.len(),
{
    let g = greedy(s, v);
    if s < 2 * v {
        if t.len() >= 2 {
            lemma_sum_front(t);
            lemma_sum_ge_first(t.drop_first());
            assert(t.drop_first()[0] == t[1]);
            assert(t[1] >= v) by {
                lemma_asc_ge_first(t, 1);
            }
            assert(false);
        }
        assert(sum_of(t) == t[0] + sum_of(t.drop_first())) by {
            lemma_sum_front(t);
        }
        assert(t.drop_first() =~= Seq::<usize>::empty());
        assert(t[0] == s);
        assert(t =~= g);
        lemma_lex_refl(t);
    } else {
        assert(g == seq![v as usize] + greedy(s - v, v));
        assert(g[0] == v && g.len() >= 1);
        if t[0] > v {
            assert(lex_le(g, t));
            assert(!lex_le(t, g));
        } else {
            assert(t[0] == v);
            if t.len() == 1 {
                assert(sum_of(t) == t[0] + sum_of(t.drop_first())) by {
                    lemma_sum_front(t);
                }
                assert(t.drop_first() =~= Seq::<usize>::empty());
                assert(s == v);
                assert(false);
            }
            let t2 = t.drop_first();
            lemma_sum_front(t);
            assert(t2[0] == t[1] && t[0] <= t[1]);
            assert forall|u: int| 0 <= u < t2.len() - 1 implies #[trigger] t2[u] <= t2[u
                + 1] by {
                assert(t[u + 1] <= t[u + 2]);
            }
            lemma_greedy_min(s - v, v, t2);
            assert(g.drop_first() =~= greedy(s - v, v));
            assert(lex_le(g, t));
            if lex_le(t, g) {
                assert(lex_le(t2, greedy(s - v, v)));
                lemma_eq_head_tail(t, g);
            }
        }
    }
}

proof fn lemma_lex_le_head(a: Seq<usize>, b: Seq<usize>)
    requires
        lex_le(a, b),
        a.len() >= 1,
    ensures
        b.len() >= 1,
        a[0] <= b[0],
        a[0] == b[0] ==> lex_le(a.drop_first(), b.drop_first()),
{
}

proof fn lemma_sum_concat(a: Seq<usize>, b: Seq<usize>)
    ensures
        sum_of(a + b) == sum_of(a) + sum_of(b),
    decreases b.len(),
{
    if b.len() == 0 {
        assert(a + b =~= a);
    } else {
        lemma_sum_concat(a, b.drop_last());
        assert((a + b).drop_last() =~= a + b.drop_last());
        assert((a + b).last() == b.last());
    }
}

/// Every ascending partition of `n` compares at or below the single-part
/// partition `[n]`, the last one the generator emits.
proof fn lemma_lex_le_single(q: Seq<usize>, n: int)
    requires
        is_asc_partition(q, n),
        0 <= n <= usize::MAX,
    ensures
        lex_le(q, seq![n as usize]),
{
    let s = seq![n as usize];
    lemma_sum_ge_first(q);
    assert(q[0] <= n);
    if q[0] == n {
        assert(q.len() == 1);
        assert(q.drop_first() =~= Seq::<usize>::empty());
        assert(s.drop_first() =~= Seq::<usize>::empty());
        assert(lex_le(q.drop_first(), s.drop_first()));
    }
}

/// The gap law of the accelerated generator: after emitting the partition
/// `c + [x-1, y+1]`, the next ascending partition of `n` in lexicographic
/// order is `c` followed by the greedy continuation of `x + y` with minimum
/// part `x` — nothing lies strictly between.
proof fn lemma_gap(n: int, c: Seq<usize>, x: int, y: int, q: Seq<usize>)
    requires
        1 <= x <= usize::MAX,
        0 <= y < usize::MAX,
        sum_of(c) + x + y == n,
        is_asc_partition(q, n),
        lex_lt(c + seq![(x - 1) as usize, (y + 1) as usize], q),
        lex_le(q, c + greedy(x + y, x)),
    ensures
        q == c + greedy(x + y, x),
{
    let prev_tail = seq![(x - 1) as usize, (y + 1) as usize];
    assert(prev_tail[0] == x - 1 && prev_tail[1] == y + 1);
    let g = greedy(x + y, x);
    lemma_lex_extends(c, prev_tail, g, q);
    let qt = q.skip(c.len() as int);
    assert(q =~= c + qt);
    lemma_sum_concat(c, qt);
    assert(sum_of(qt) == x + y);
    assert(qt.len() >= 1);
    assert forall|u: int| 0 <= u < qt.len() implies 1 <= #[trigger] qt[u] by {
        assert(qt[u] == q[c.len() + u]);
    }
    assert forall|u: int| 0 <= u < qt.len() - 1 implies #[trigger] qt[u] <= qt[u + 1] by {
        assert(qt[u] == q[c.len() + u]);
        assert(qt[u + 1] == q[c.len() + u + 1]);
        assert(q[c.len() + u] <= q[c.len() + u + 1]);
    }
    assert(asc_seq(qt));
    // The continuation starts at x or later: x - 1 would force it to equal
    // the previous emission's tail.
    lemma_lex_le_head(prev_tail, qt);
    assert(qt[0] >= x - 1);
    if qt[0] == x - 1 {
        assert(lex_le(prev_tail, qt));
        assert(prev_tail.drop_first() =~= seq![(y + 1) as usize]);
        let qt2 = qt.drop_first();
        assert(lex_le(seq![(y + 1) as usize], qt2));
        lemma_lex_le_head(seq![(y + 1) as usize], qt2);
        assert(qt2.len() >= 1);
        assert(qt2[0] >= y + 1);
        lemma_sum_front(qt);
        assert(sum_of(qt2) == y + 1);
        assert forall|u: int| 0 <= u < qt2.len() implies 1 <= #[trigger] qt2[u] by {
            assert(qt2[u] == qt[u + 1]);
        }
        lemma_sum_ge_first(qt2);
        assert(qt2.len() == 1);
        assert(qt2[0] == y + 1);
        assert(qt =~= prev_tail);
        assert(q =~= c + prev_tail);
        assert(false);
    }
    assert(qt[0] >= x);
    lemma_greedy_min(x + y, x, qt);
    assert(qt == g);
}

/// The generator's loop state read as one composition: the committed prefix
/// `a[0..k]` followed by the pending last part `y + 1`.
pub open spec fn state_u(a: Seq<usize>, k: int, y: int) -> Seq<usize>
    recommends
        y < usize::MAX,
{
    a.take(k).push((y + 1) as usize)
}

proof fn lemma_chunks_has_push(chunks: Seq<Vec<usize>>, v: Vec<usize>, q: Seq<usize>)
    requires
        chunks_has(chunks, q),
    ensures
        chunks_has(chunks.push(v), q),
{
    let i = choose|i: int| 0 <= i < chunks.len() && (#[trigger] chunks[i])@ == q;
    assert(chunks.push(v)[i]@ == q);
}

/// Pushing an emission that is lexicographically above the previous last
/// emission keeps the emitted list strictly increasing.
proof fn lemma_order_push(chunks_old: Seq<Vec<usize>>, v: Vec<usize>, prev: Seq<usize>)
    requires
        lex_lt(prev, v@),
        forall|i: int, j: int|
            0 <= i < j < chunks_old.len() ==> lex_lt(
                (#[trigger] chunks_old[i])@,
                (#[trigger] chunks_old[j])@,
            ),
        chunks_old.len() >= 1 ==> chunks_old[chunks_old.len() - 1]@ == prev,
    ensures
        forall|i: int, j: int|
            0 <= i < j < chunks_old.push(v).len() ==> lex_lt(
                (#[trigger] chunks_old.push(v)[i])@,
                (#[trigger] chunks_old.push(v)[j])@,
            ),
{
    let cn = chunks_old.push(v);
    assert forall|i: int, j: int| 0 <= i < j < cn.len() implies lex_lt(
        (#[trigger] cn[i])@,
        (#[trigger] cn[j])@,
    ) by {
        if j < chunks_old.len() {
            assert(cn[i] == chunks_old[i] && cn[j] == chunks_old[j]);
            assert(lex_lt(chunks_old[i]@, chunks_old[j]@));
        } else {
            assert(cn[j]@ == v@);
            assert(cn[i] == chunks_old[i]);
            if i == chunks_old.len() - 1 {
                assert(chunks_old[i]@ == prev);
            } else {
                assert(lex_lt(chunks_old[i]@, chunks_old[chunks_old.len() - 1]@));
                assert(chunks_old[chunks_old.len() - 1]@ == prev);
                lemma_lex_lt_trans(chunks_old[i]@, prev, v@);
            }
        }
    }
}

/// One emission extends completeness: if every ascending partition at or
/// below the previous emission is already listed, and the next greedy
/// continuation has just been listed, then every ascending partition at or
/// below the new emission is listed.
proof fn lemma_complete_step(
    n: int,
    chunks_old: Seq<Vec<usize>>,
    chunks_new: Seq<Vec<usize>>,
    prev: Seq<usize>,
    c_gap: Seq<usize>,
    xc: int,
    yc: int,
)
    requires
        1 <= xc <= usize::MAX,
        0 <= yc < usize::MAX,
        sum_of(c_gap) + xc + yc == n,
        prev == c_gap + seq![(xc - 1) as usize, (yc + 1) as usize],
        forall|q: Seq<usize>|
            #[trigger] is_asc_partition(q, n) && lex_le(q, prev) ==> chunks_has(chunks_old, q),
        forall|q: Seq<usize>|
            #[trigger] chunks_has(chunks_old, q) ==> chunks_has(chunks_new, q),
        chunks_has(chunks_new, c_gap + greedy(xc + yc, xc)),
    ensures
        forall|q: Seq<usize>|
            #[trigger] is_asc_partition(q, n) && lex_le(q, c_gap + greedy(xc + yc, xc))
                ==> chunks_has(chunks_new, q),
{
    let e = c_gap + greedy(xc + yc, xc);
    assert forall|q: Seq<usize>|
        #[trigger] is_asc_partition(q, n) && lex_le(q, e) implies chunks_has(
        chunks_new,
        q,
    ) by {
        if lex_le(q, prev) {
            assert(chunks_has(chunks_old, q));
        } else {
            lemma_lex_total(q, prev);
            lemma_lex_refl(q);
            assert(lex_lt(prev, q));
            lemma_gap(n, c_gap, xc, yc, q);
        }
    }
}

/// The termination measure strictly decreases across one generator step:
/// the new state agrees with the old below position `k0 - 1` and is larger
/// there, so its positional weight is strictly smaller.
proof fn lemma_weight_step(
    n: int,
    a0: Seq<usize>,
    k0: int,
    y0: int,
    a1: Seq<usize>,
    k1: int,
    y1: int,
)
    requires
        1 <= n,
        a0.len() == n + 1,
        a1.len() == n + 1,
        1 <= k0 <= n,
        k0 - 1 <= k1 <= n - 1,
        0 <= y0,
        0 <= y1,
        forall|q: int| 0 <= q < k0 ==> #[trigger] a0[q] <= n,
        forall|q: int| 0 <= q < k1 ==> 1 <= #[trigger] a1[q] <= n,
        sum_of(a0.take(k0)) + 1 + y0 == n,
        sum_of(a1.take(k1)) + 1 + y1 == n,
        a1.take(k0 - 1) == a0.take(k0 - 1),
        k1 > k0 - 1 ==> a1[k0 - 1] > a0[k0 - 1],
        k1 == k0 - 1 ==> y1 + 1 > a0[k0 - 1],
    ensures
        0 <= weight_from(state_of(a1, k1, y1), n, 0),
        weight_from(state_of(a1, k1, y1), n, 0) < weight_from(state_of(a0, k0, y0), n, 0),
{
    let st0 = state_of(a0, k0, y0);
    let st1 = state_of(a1, k1, y1);
    lemma_sum_nonneg(a0.take(k0));
    lemma_sum_nonneg(a1.take(k1));
    assert forall|t: int| 0 <= t < st0.len() implies 0 <= #[trigger] st0[t] <= n by {
        if t < k0 {
            assert(st0[t] == a0[t]);
        }
    }
    assert forall|t: int| 0 <= t < st1.len() implies 0 <= #[trigger] st1[t] <= n by {
        if t < k1 {
            assert(st1[t] == a1[t]);
        }
    }
    assert forall|t: int| 0 <= t < k0 - 1 implies #[trigger] st0[t] == st1[t] by {
        assert(a1.take(k0 - 1)[t] == a0.take(k0 - 1)[t]);
        assert(st0[t] == a0[t]);
        assert(st1[t] == a1[t]);
    }
    assert(st0[k0 - 1] == a0[k0 - 1]);
    assert(st0[k0 - 1] < st1[k0 - 1]);
    lemma_weight_lex(st0, st1, n, 0, k0 - 1);
    lemma_weight_nonneg(st1, n, 0);
}

/// Everything the generator's emitted list satisfies while its front (the
/// last emission) is `front`: each chunk is an ascending partition of `n`,
/// the chunks are strictly increasing lexicographically, `front` is the last
/// chunk, and every ascending partition at or below `front` is present.
#[verifier::opaque]
spec fn emitted_wf(chunks: Seq<Vec<usize>>, n: int, front: Seq<usize>) -> bool {
    &&& (forall|i: int| 0 <= i < chunks.len() ==> is_asc_partition((#[trigger] chunks[i])@, n))
    &&& (forall|i: int, j: int|
        0 <= i < j < chunks.len() ==> lex_lt((#[trigger] chunks[i])@, (#[trigger] chunks[j])@))
    &&& (chunks.len() >= 1 ==> chunks[chunks.len() - 1]@ == front)
    &&& (forall|q: Seq<usize>|
        #[trigger] is_asc_partition(q, n) && lex_le(q, front) ==> chunks_has(chunks, q))
}

/// Before anything is emitted, the sentinel front `[0, n]` lies below every
/// ascending partition, so the empty list is complete up to it.
proof fn lemma_emitted_wf_init(n: int)
    requires
        1 <= n <= usize::MAX,
    ensures
        emitted_wf(Seq::<Vec<usize>>::empty(), n, seq![0usize, n as usize]),
{
    reveal(emitted_wf);
    let front = seq![0usize, n as usize];
    assert forall|q: Seq<usize>|
        #[trigger] is_asc_partition(q, n) && lex_le(q, front) implies chunks_has(
        Seq::<Vec<usize>>::empty(),
        q,
    ) by {
        lemma_lex_le_head(q, front);
        assert(1 <= q[0]);
        assert(false);
    }
}

/// When the front reaches `[n]`, the lexicographically last ascending
/// partition, the emitted list holds every ascending partition of `n`.
proof fn lemma_emitted_wf_final(chunks: Seq<Vec<usize>>, n: int)
    requires
        1 <= n <= usize::MAX,
        emitted_wf(chunks, n, seq![n as usize]),
    ensures
        forall|i: int| 0 <= i < chunks.len() ==> is_asc_partition((#[trigger] chunks[i])@, n),
        forall|i: int, j: int|
            0 <= i < j < chunks.len() ==> lex_lt((#[trigger] chunks[i])@, (#[trigger] chunks[j])@),
        forall|q: Seq<usize>| #[trigger] is_asc_partition(q, n) ==> chunks_has(chunks, q),
{
    reveal(emitted_wf);
    assert forall|q: Seq<usize>| #[trigger] is_asc_partition(q, n) implies chunks_has(
        chunks,
        q,
    ) by {
        lemma_lex_le_single(q, n);
    }
}

/// One full emission step: appending the greedy successor of the previous
/// emission keeps the emitted list complete up to it, strictly increasing,
/// and records the new emission as the front.
proof fn lemma_emit_step(
    n: int,
    c_gap: Seq<usize>,
    xc: int,
    yc: int,
    chunks_old: Seq<Vec<usize>>,
    v: Vec<usize>,
    prev: Seq<usize>,
)
    requires
        1 <= xc <= usize::MAX,
        0 <= yc < usize::MAX,
        n <= usize::MAX,
        sum_of(c_gap) + xc + yc == n,
        prev == c_gap + seq![(xc - 1) as usize, (yc + 1) as usize],
        v@ == c_gap + greedy(xc + yc, xc),
        is_asc_partition(v@, n),
        emitted_wf(chunks_old, n, prev),
    ensures
        emitted_wf(chunks_old.push(v), n, v@),
{
    reveal(emitted_wf);
    let cn = chunks_old.push(v);
    assert forall|i: int| 0 <= i < cn.len() implies is_asc_partition(
        (#[trigger] cn[i])@,
        n,
    ) by {
        if i < chunks_old.len() {
            assert(cn[i] == chunks_old[i]);
        } else {
            assert(cn[i]@ == v@);
        }
    }
    assert(cn[chunks_old.len() as int]@ == v@);
    assert(chunks_has(cn, v@));
    assert forall|q: Seq<usize>| #[trigger] chunks_has(chunks_old, q) implies chunks_has(
        cn,
        q,
    ) by {
        lemma_chunks_has_push(chunks_old, v, q);
    }
    lemma_complete_step(n, chunks_old, cn, prev, c_gap, xc, yc);
    lemma_sum_nonneg(c_gap);
    lemma_greedy_head(xc + yc, xc);
    let pt = seq![(xc - 1) as usize, (yc + 1) as usize];
    let g0 = greedy(xc + yc, xc);
    assert(pt[0] < g0[0] && lex_le(pt, g0));
    assert(pt != g0) by {
        if pt == g0 {
            assert(pt[0] == g0[0]);
        }
    }
    lemma_lex_lt_append(c_gap, pt, g0);
    lemma_order_push(chunks_old, v, prev);
}

/// The row-closing emission: after the two-part emissions are exhausted the
/// generator merges the remaining sum into one final part, which is again
/// the greedy successor of the previous emission, whether or not the inner
/// loop emitted anything.
proof fn lemma_close_step(
    n: int,
    c0: Seq<usize>,
    xm: int,
    y0: int,
    y2: int,
    bseq: Seq<usize>,
    prev2: Seq<usize>,
    emitted: bool,
    chunks_pre: Seq<Vec<usize>>,
    v: Vec<usize>,
    x: int,
    s: int,
)
    requires
        1 <= xm <= usize::MAX,
        0 <= y0 < usize::MAX,
        n <= usize::MAX,
        0 <= y2,
        1 <= x <= usize::MAX,
        x <= s <= usize::MAX,
        x > s - x,
        sum_of(c0) + xm + y0 == n,
        sum_of(bseq) + s == n,
        c0 + greedy(xm + y0, xm) == bseq + greedy(xm + y2, xm),
        !emitted ==> prev2 == c0 + seq![(xm - 1) as usize, (y0 + 1) as usize] && x == xm && s - x
            == y2,
        emitted ==> prev2 == bseq + seq![(x - 1) as usize, ((s - x) + 1) as usize],
        v@ == bseq + seq![s as usize],
        is_asc_partition(v@, n),
        emitted_wf(chunks_pre, n, prev2),
    ensures
        emitted_wf(chunks_pre.push(v), n, v@),
{
    if !emitted {
        lemma_greedy_single(xm + y2, xm);
        assert(greedy(xm + y2, xm) == seq![s as usize]);
        assert(v@ == c0 + greedy(xm + y0, xm));
        lemma_emit_step(n, c0, xm, y0, chunks_pre, v, prev2);
    } else {
        lemma_greedy_single(s, x);
        assert(v@ == bseq + greedy(x + (s - x), x));
        lemma_emit_step(n, bseq, x, s - x, chunks_pre, v, prev2);
    }
}

} // verus!
