//! Sections: one grid cell of the partitioned screen bound to its global
//! origin, flattened in row-major order, with the well-formedness guarantee
//! that every section lies inside the real screen.

use vstd::prelude::*;
use crate::partition::{
    grid_view, cell_count, rects_of, origins_of, row_width_prefix, height_prefix, is_partition,
    is_asc_partition, grid_score, max_dim, create_partitioning, create_virtual_screens,
};
use crate::codec::process_spec;
use crate::codec::process_frame;
use crate::codec::decode_spec;

verus! {

/// Process-wide configuration, read-only after startup: the upstream
/// endpoint, the real screen's dimensions, the requested section count, the
/// two axis flips, and the base of the per-section port range.
#[derive(Clone, Debug)]
pub struct Config {
    pub upstream_address: String,
    pub real_width: u16,
    pub real_height: u16,
    pub sections: usize,
    pub flip_x: bool,
    pub flip_y: bool,
    pub base_port: u16,
}

/// One virtual sub-screen: a grid cell's dimensions and its top-left global
/// offset on the real screen.
#[derive(PartialEq, Eq, Structural, Clone, Copy, Debug)]
pub struct Section {
    pub width: u16,
    pub height: u16,
    pub x: u16,
    pub y: u16,
}

/// A section is well formed for a real screen when it lies entirely inside
/// it: origin plus extent stays within each dimension.
pub open spec fn section_wf(s: Section, real_width: u16, real_height: u16) -> bool {
    &&& s.x + s.width <= real_width
    &&& s.y + s.height <= real_height
}

/// A grid's cells in row-major order: row by row, left to right.
pub open spec fn flatten_grid(g: Seq<Seq<(usize, usize)>>) -> Seq<(usize, usize)>
    decreases g.len(),
{
    if g.len() == 0 {
        Seq::empty()
    } else {
        flatten_grid(g.drop_last()) + g.last()
    }
}

proof fn lemma_flatten_grid_step(g: Seq<Seq<(usize, usize)>>, i: int)
    requires
        0 <= i < g.len(),
    ensures
        flatten_grid(g.take(i + 1)) == flatten_grid(g.take(i)) + g[i],
{
    let pre = g.take(i + 1);
    assert(pre.drop_last() =~= g.take(i));
    assert(pre.last() == g[i]);
}

proof fn lemma_flatten_grid_len(g: Seq<Seq<(usize, usize)>>)
    ensures
        flatten_grid(g).len() == cell_count(g),
    decreases g.len(),
{
    if g.len() > 0 {
        lemma_flatten_grid_len(g.drop_last());
    }
}

/// A section agrees with a cell and an origin taken from the planner.
pub open spec fn sec_matches(s: Section, cell: (usize, usize), origin: (usize, usize)) -> bool {
    &&& s.width as int == cell.0 as int
    &&& s.height as int == cell.1 as int
    &&& s.x as int == origin.0 as int
    &&& s.y as int == origin.1 as int
}

/// Bind every grid cell to its origin, in row-major order: section `k`
/// holds the `k`-th cell's dimensions and the `k`-th origin, and every
/// section lies inside the real screen.
pub fn create_sections(
    partitioning: &Vec<Vec<(usize, usize)>>,
    virtual_screens: &Vec<Vec<(usize, usize)>>,
    real_width: u16,
    real_height: u16,
) -> (r: Vec<Section>)
    requires
        virtual_screens@.len() == partitioning@.len(),
        forall|i: int|
            0 <= i < partitioning@.len() ==> (#[trigger] virtual_screens@[i])@.len()
                == partitioning@[i]@.len(),
        forall|i: int, j: int|
            0 <= i < partitioning@.len() && 0 <= j < partitioning@[i]@.len() ==> (
            #[trigger] partitioning@[i]@[j]).0 + virtual_screens@[i]@[j].0 <= real_width && (
            partitioning@[i]@[j]).1 + virtual_screens@[i]@[j].1 <= real_height,
    ensures
        r@.len() == cell_count(grid_view(partitioning@)),
        forall|k: int|
            0 <= k < r@.len() ==> sec_matches(
                #[trigger] r@[k],
                flatten_grid(grid_view(partitioning@))[k],
                flatten_grid(grid_view(virtual_screens@))[k],
            ),
        forall|k: int| 0 <= k < r@.len() ==> section_wf(#[trigger] r@[k], real_width, real_height),
{
    let ghost gp = grid_view(partitioning@);
    let ghost gv = grid_view(virtual_screens@);
    let mut r: Vec<Section> = Vec::new();
    for i in 0..partitioning.len()
        invariant
            gp == grid_view(partitioning@),
            gv == grid_view(virtual_screens@),
            gp.len() == partitioning@.len(),
            gv.len() == gp.len(),
            forall|t: int| 0 <= t < gp.len() ==> (#[trigger] gv[t]).len() == gp[t].len(),
            forall|t: int, j: int|
                0 <= t < gp.len() && 0 <= j < gp[t].len() ==> (#[trigger] gp[t][j]).0 + gv[t][j].0
                    <= real_width && (gp[t][j]).1 + gv[t][j].1 <= real_height,
            r@.len() == flatten_grid(gp.take(i as int)).len(),
            flatten_grid(gv.take(i as int)).len() == r@.len(),
            forall|k: int|
                0 <= k < r@.len() ==> sec_matches(
                    #[trigger] r@[k],
                    flatten_grid(gp.take(i as int))[k],
                    flatten_grid(gv.take(i as int))[k],
                ),
            forall|k: int|
                0 <= k < r@.len() ==> section_wf(#[trigger] r@[k], real_width, real_height),
    {
        let row = &partitioning[i];
        let vrow = &virtual_screens[i];
        assert(gp[i as int] == row@ && gv[i as int] == vrow@);
        for j in 0..row.len()
            invariant
                gp == grid_view(partitioning@),
                gv == grid_view(virtual_screens@),
                gp.len() == partitioning@.len(),
                gv.len() == gp.len(),
                i < gp.len(),
                gp[i as int] == row@,
                gv[i as int] == vrow@,
                vrow@.len() == row@.len(),
                forall|t: int, u: int|
                    0 <= t < gp.len() && 0 <= u < gp[t].len() ==> (#[trigger] gp[t][u]).0
                        + gv[t][u].0 <= real_width && (gp[t][u]).1 + gv[t][u].1 <= real_height,
                r@.len() == flatten_grid(gp.take(i as int)).len() + j,
                flatten_grid(gv.take(i as int)).len() == flatten_grid(gp.take(i as int)).len(),
                forall|k: int|
                    0 <= k < flatten_grid(gp.take(i as int)).len() ==> sec_matches(
                        #[trigger] r@[k],
                        flatten_grid(gp.take(i as int))[k],
                        flatten_grid(gv.take(i as int))[k],
                    ),
                forall|k: int|
                    flatten_grid(gp.take(i as int)).len() <= k < r@.len() ==> sec_matches(
                        #[trigger] r@[k],
                        row@[k - flatten_grid(gp.take(i as int)).len()],
                        vrow@[k - flatten_grid(gp.take(i as int)).len()],
                    ),
                forall|k: int|
                    0 <= k < r@.len() ==> section_wf(#[trigger] r@[k], real_width, real_height),
        {
            let cell = row[j];
            let origin = vrow[j];
            assert(cell.0 + origin.0 <= real_width && cell.1 + origin.1 <= real_height);
            let s = Section {
                width: cell.0 as u16,
                height: cell.1 as u16,
                x: origin.0 as u16,
                y: origin.1 as u16,
            };
            r.push(s);
        }
        proof {
            lemma_flatten_grid_step(gp, i as int);
            lemma_flatten_grid_step(gv, i as int);
        }
    }
    proof {
        assert(gp.take(gp.len() as int) =~= gp);
        assert(gv.take(gv.len() as int) =~= gv);
        lemma_flatten_grid_len(gp);
    }
    r
}

proof fn lemma_div_mul_le(x: int, c: int)
    requires
        x >= 0,
        c >= 1,
    ensures
        c * (x / c) <= x,
        0 <= x / c,
{
    vstd::arithmetic::div_mod::lemma_fundamental_div_mod(x, c);
    vstd::arithmetic::div_mod::lemma_mod_bound(x, c);
    vstd::arithmetic::div_mod::lemma_div_pos_is_pos(x, c);
}

proof fn lemma_const_row_width_prefix(row: Seq<(usize, usize)>, d: int, j: int)
    requires
        0 <= j <= row.len(),
        forall|t: int| 0 <= t < row.len() ==> (#[trigger] row[t]).0 == d,
    ensures
        row_width_prefix(row, j) == j * d,
    decreases j,
{
    if j > 0 {
        lemma_const_row_width_prefix(row, d, j - 1);
        assert(row[j - 1].0 == d);
        assert(row_width_prefix(row, j) == row_width_prefix(row, j - 1) + row[j - 1].0);
        assert((j - 1) * d + d == j * d) by (nonlinear_arith);
    } else {
        assert(row_width_prefix(row, 0) == 0);
        assert(0 * d == 0) by (nonlinear_arith);
    }
}

proof fn lemma_rects_height_prefix(width: usize, height: usize, p: Seq<usize>, i: int)
    requires
        p.len() >= 1,
        forall|t: int| 0 <= t < p.len() ==> 1 <= #[trigger] p[t],
        0 <= i <= p.len(),
    ensures
        height_prefix(rects_of(width, height, p), i) == i * (height as int / p.len() as int),
    decreases i,
{
    let g = rects_of(width, height, p);
    let e = height as int / p.len() as int;
    if i > 0 {
        lemma_rects_height_prefix(width, height, p, i - 1);
        assert(g[i - 1][0].1 == e);
        assert(height_prefix(g, i) == height_prefix(g, i - 1) + g[i - 1][0].1);
        assert((i - 1) * e + e == i * e) by (nonlinear_arith);
    } else {
        assert(height_prefix(g, 0) == 0);
        assert(0 * e == 0) by (nonlinear_arith);
    }
}

/// Every cell of a planned grid, offset by its origin, stays inside the
/// screen: the per-row width prefix plus the cell's width is at most
/// `width`, and the height prefix plus the cell's height at most `height`.
proof fn lemma_rects_origins_within(width: usize, height: usize, p: Seq<usize>)
    requires
        p.len() >= 1,
        forall|t: int| 0 <= t < p.len() ==> 1 <= #[trigger] p[t],
    ensures
        forall|i: int, j: int|
            0 <= i < p.len() && 0 <= j < p[i] ==> #[trigger] row_width_prefix(
                rects_of(width, height, p)[i],
                j,
            ) + width as int / p[i] as int <= width && height_prefix(rects_of(width, height, p), i)
                + height as int / p.len() as int <= height,
{
    let g = rects_of(width, height, p);
    assert forall|i: int, j: int| 0 <= i < p.len() && 0 <= j < p[i] implies #[trigger] row_width_prefix(
        g[i],
        j,
    ) + width as int / p[i] as int <= width && height_prefix(g, i) + height as int / p.len() as int
        <= height by {
        let c = p[i] as int;
        let d = width as int / c;
        let rows = p.len() as int;
        let e = height as int / rows;
        lemma_div_mul_le(width as int, c);
        lemma_div_mul_le(height as int, rows);
        lemma_const_row_width_prefix(g[i], d, j);
        assert(j * d + d == (j + 1) * d) by (nonlinear_arith);
        vstd::arithmetic::mul::lemma_mul_inequality(j + 1, c, d);
        lemma_rects_height_prefix(width, height, p, i);
        assert(i * e + e == (i + 1) * e) by (nonlinear_arith);
        vstd::arithmetic::mul::lemma_mul_inequality(i + 1, rows, e);
    }
}

/// Plan the whole layout for a configuration: find the best tiling of the
/// real screen into `config.sections` cells, compute every cell's global
/// origin, and bind them into exactly `config.sections` sections, each of
/// which lies inside the real screen.
pub fn plan_sections(config: &Config) -> (r: Vec<Section>)
    requires
        1 <= config.sections,
        config.sections <= usize::MAX / 2,
        config.sections * max_dim(config.real_width as usize, config.real_height as usize)
            * max_dim(config.real_width as usize, config.real_height as usize) <= isize::MAX,
    ensures
        r@.len() == config.sections,
        forall|k: int|
            0 <= k < r@.len() ==> section_wf(#[trigger] r@[k], config.real_width,
            config.real_height),
        exists|p: Seq<usize>|
            #![auto]
            {
                &&& is_partition(p, config.sections as int)
                &&& (forall|q: Seq<usize>|
                    #[trigger] is_asc_partition(q, config.sections as int) ==> grid_score(
                        rects_of(
                            config.real_width as usize,
                            config.real_height as usize,
                            p,
                        ),
                    ) <= grid_score(
                        rects_of(config.real_width as usize, config.real_height as usize, q),
                    ))
                &&& (forall|k: int|
                    0 <= k < r@.len() ==> sec_matches(
                        #[trigger] r@[k],
                        flatten_grid(
                            rects_of(config.real_width as usize, config.real_height as usize, p),
                        )[k],
                        flatten_grid(
                            origins_of(
                                rects_of(
                                    config.real_width as usize,
                                    config.real_height as usize,
                                    p,
                                ),
                            ),
                        )[k],
                    ))
            },
{
    let width = config.real_width as usize;
    let height = config.real_height as usize;
    let partitioning = create_partitioning(width, height, config.sections);
    let ghost p = choose|q: Seq<usize>|
        is_partition(q, config.sections as int) && grid_view(partitioning@) == rects_of(
            width,
            height,
            q,
        );
    proof {
        let gp = grid_view(partitioning@);
        lemma_rects_origins_within(width, height, p);
        assert forall|i: int| 0 <= i < partitioning@.len() implies (
        #[trigger] partitioning@[i]@).len() >= 1 by {
            assert(gp[i] == partitioning@[i]@);
            assert(gp[i].len() == p[i] as int);
        }
        assert forall|i: int| 0 <= i < partitioning@.len() implies row_width_prefix(
            #[trigger] partitioning@[i]@,
            partitioning@[i]@.len() as int,
        ) <= usize::MAX by {
            assert(gp[i] == partitioning@[i]@);
            let c = p[i] as int;
            let d = width as int / c;
            lemma_div_mul_le(width as int, c);
            lemma_const_row_width_prefix(gp[i], d, c);
        }
        assert(height_prefix(gp, partitioning@.len() as int) <= usize::MAX) by {
            lemma_rects_height_prefix(width, height, p, p.len() as int);
            lemma_div_mul_le(height as int, p.len() as int);
        }
    }
    let virtual_screens = create_virtual_screens(partitioning.as_slice());
    proof {
        let gp = grid_view(partitioning@);
        let gv = grid_view(virtual_screens@);
        assert(gv == origins_of(gp));
        assert forall|i: int| 0 <= i < partitioning@.len() implies (
        #[trigger] virtual_screens@[i])@.len() == partitioning@[i]@.len() by {
            assert(gv[i] == virtual_screens@[i]@);
            assert(gp[i] == partitioning@[i]@);
            assert(gv[i].len() == gp[i].len());
        }
        assert forall|i: int, j: int|
            0 <= i < partitioning@.len() && 0 <= j < partitioning@[i]@.len() implies (
        #[trigger] partitioning@[i]@[j]).0 + virtual_screens@[i]@[j].0
            <= config.real_width && (partitioning@[i]@[j]).1 + virtual_screens@[i]@[j].1
            <= config.real_height by {
            assert(gp[i] == partitioning@[i]@);
            assert(gv[i] == virtual_screens@[i]@);
            lemma_rects_origins_within(width, height, p);
            let c = p[i] as int;
            let d = width as int / c;
            let rows = p.len() as int;
            let e = height as int / rows;
            assert(gp[i][j] == ((d as usize, e as usize)));
            lemma_div_mul_le(width as int, c);
            lemma_div_mul_le(height as int, rows);
            lemma_const_row_width_prefix(gp[i], d, j);
            lemma_rects_height_prefix(width, height, p, i);
            assert(gv[i][j].0 as int == row_width_prefix(gp[i], j));
            assert(gv[i][j].1 as int == height_prefix(gp, i));
        }
    }
    let sections = create_sections(
        &partitioning,
        &virtual_screens,
        config.real_width,
        config.real_height,
    );
    proof {
        let gp = grid_view(partitioning@);
        let gv = grid_view(virtual_screens@);
        assert(gp == rects_of(width, height, p));
        assert(gv == origins_of(gp));
    }
    sections
}

/// One decision step of a connection's read loop: given the 7 bytes read
/// from the client, either the re-encoded frame to hand to the aggregator,
/// or `None` when the frame's local coordinates fall outside the section
/// and it must be silently dropped. Out-of-bounds frames therefore never
/// reach the aggregator.
pub fn connection_step(buf: &[u8; 7], section: &Section, config: &Config) -> (r: Option<[u8; 7]>)
    requires
        section_wf(*section, config.real_width, config.real_height),
    ensures
        match process_spec(
            buf@,
            (section.x, section.y),
            (section.width, section.height),
            config.flip_x,
            config.flip_y,
            config.real_width,
            config.real_height,
        ) {
            Option::None => r is None,
            Option::Some(out) => r is Some && r->0@ == out,
        },
        r is Some <==> (decode_spec(buf@).x < section.width && decode_spec(buf@).y
            < section.height),
{
    process_frame(
        buf,
        (section.x, section.y),
        (section.width, section.height),
        config.flip_x,
        config.flip_y,
        config.real_width,
        config.real_height,
    )
}

/// The TCP port a section listens on: the configured base port plus the
/// section's row-major index, or `None` when that sum leaves the port range.
pub fn section_port(base_port: u16, index: usize) -> (r: Option<u16>)
    ensures
        base_port + index <= u16::MAX ==> r == Option::Some((base_port + index) as u16),
        base_port + index > u16::MAX ==> r is None,
{
    if index <= (u16::MAX - base_port) as usize {
        Option::Some(base_port + (index as u16))
    } else {
        Option::None
    }
}

} // verus!
