use crate::bounds2d::{before2, lemma_rows2, lemma_rows2_len, row2, rows2, sorted2, Bounds2D, Bounds2DIter};
use crate::{try_manager_stops, try_manager_failure, lemma_try_manager_stops, lemma_try_reload_step, lemma_try_unload_step, lemma_manager_runs, lemma_try_manager_runs, manager_runs, manager_step, try_manager_step, try_manager_runs, CellManage, ManagerCall, TryCellManage};
use crate::fixedarray::{clone_slots, in_grid2, index2, lemma_index2, lemma_position2, lemma_row_major, position2, FixedArray};
use vstd::prelude::*;

verus! {

/// Brings `t`, which lies in `[0, 2n)`, into `[0, n)` by one wrap.
pub open spec fn wrap_once(t: int, n: int) -> int {
    if t >= n {
        t - n
    } else {
        t
    }
}

/// The position in `[origin, origin + n)` that is congruent to `v` modulo `n`.
pub open spec fn congruent_in(v: int, origin: int, n: int) -> int {
    origin + (v - origin) % n
}

/// `t % n` for a `t` within one period of `[0, n)`.
pub proof fn lemma_mod_window(t: int, n: int)
    requires
        0 < n,
        -n <= t < 2 * n,
    ensures
        t % n == (if t < 0 {
            t + n
        } else if t >= n {
            t - n
        } else {
            t
        }),
{
    if t < 0 {
        vstd::arithmetic::div_mod::lemma_fundamental_div_mod_converse(t, n, -1, t + n);
    } else if t >= n {
        vstd::arithmetic::div_mod::lemma_fundamental_div_mod_converse(t, n, 1, t - n);
    } else {
        vstd::arithmetic::div_mod::lemma_fundamental_div_mod_converse(t, n, 0, t);
    }
}

/// Whether moving a grid of the given size from `old` to `new` keeps part of it in
/// place (a roll): the move is shorter than the grid on both axes.
pub open spec fn rolls2(size: (u32, u32), src: (i32, i32), dst: (i32, i32)) -> bool {
    -(size.0 as int) < dst.0 - src.0 < size.0 && -(size.1 as int) < dst.1 - src.1 < size.1
}

/// The old position whose cell the new position `p` takes over when a grid of the given
/// size moves from `old` to `new`. On a roll it is the position of the old grid congruent
/// to `p` (modulo the size); otherwise the cell at the same place relative to the offset.
pub open spec fn prior2(size: (u32, u32), src: (i32, i32), dst: (i32, i32), p: (i32, i32)) -> (i32, i32) {
    if rolls2(size, src, dst) {
        (congruent_in(p.0 as int, src.0 as int, size.0 as int) as i32, congruent_in(p.1 as int, src.1 as int, size.1 as int) as i32)
    } else {
        ((src.0 + (p.0 - dst.0)) as i32, (src.1 + (p.1 - dst.1)) as i32)
    }
}

/// Whether `p` enters the grid when a grid of the given size moves from `src` to `dst`:
/// it lies in the new placement and not in the old one.
pub open spec fn enters2(size: (u32, u32), src: (i32, i32), dst: (i32, i32), p: (i32, i32)) -> bool {
    in_grid2(size, dst, p) && !in_grid2(size, src, p)
}

/// On a roll, the part of the new grid a position falls in, in the order in which the
/// parts are reloaded: `0` for the column strip (outside the old columns, inside the old
/// rows), `1` for the row strip (inside the old columns, outside the old rows), `2` for
/// the corner.
pub open spec fn reload_part2(size: (u32, u32), src: (i32, i32), p: (i32, i32)) -> int {
    let in_x = src.0 <= p.0 < src.0 + size.0;
    let in_y = src.1 <= p.1 < src.1 + size.1;
    if !in_x && in_y {
        0
    } else if in_x && !in_y {
        1
    } else {
        2
    }
}

/// The order in which positions are reloaded on a roll: by part, then row by row.
pub open spec fn reload_before2(size: (u32, u32), src: (i32, i32), a: (i32, i32), b: (i32, i32)) -> bool {
    reload_part2(size, src, a) < reload_part2(size, src, b) || (reload_part2(size, src, a)
        == reload_part2(size, src, b) && before2(a, b))
}

/// The order in which the positions that enter a grid of the given size moving from `src`
/// to `dst` are reloaded: [reload_before2] on a roll, row by row otherwise.
pub open spec fn reloads_before2(size: (u32, u32), src: (i32, i32), dst: (i32, i32), a: (i32, i32), b: (i32, i32)) -> bool {
    if rolls2(size, src, dst) {
        reload_before2(size, src, a, b)
    } else {
        before2(a, b)
    }
}

/// The reload pairs `(old position, new position)` for a sequence of new positions.
pub open spec fn reload_pairs2(size: (u32, u32), src: (i32, i32), dst: (i32, i32), s: Seq<(i32, i32)>) -> Seq<((i32, i32), (i32, i32))> {
    s.map_values(|p: (i32, i32)| (prior2(size, src, dst, p), p))
}

/// Both placements of a grid of the given size fit in the `i32` range.
pub open spec fn placements_fit2(size: (u32, u32), src: (i32, i32), dst: (i32, i32)) -> bool {
    &&& size.0 > 0
    &&& size.1 > 0
    &&& src.0 + size.0 <= i32::MAX
    &&& src.1 + size.1 <= i32::MAX
    &&& dst.0 + size.0 <= i32::MAX
    &&& dst.1 + size.1 <= i32::MAX
}

/// Computes the old position whose cell the new position `p` takes over.
fn prior_position2(size: (u32, u32), src: (i32, i32), dst: (i32, i32), rolls: bool, p: (i32, i32)) -> (r: (i32, i32))
    requires
        placements_fit2(size, src, dst),
        in_grid2(size, dst, p),
        rolls == rolls2(size, src, dst),
    ensures
        r == prior2(size, src, dst, p),
{
    let w = size.0 as i64;
    let h = size.1 as i64;
    if rolls {
        let tx = p.0 as i64 - src.0 as i64;
        let ty = p.1 as i64 - src.1 as i64;
        let wx = if tx < 0 { tx + w } else if tx >= w { tx - w } else { tx };
        let wy = if ty < 0 { ty + h } else if ty >= h { ty - h } else { ty };
        proof {
            lemma_mod_window(tx as int, w as int);
            lemma_mod_window(ty as int, h as int);
        }
        ((src.0 as i64 + wx) as i32, (src.1 as i64 + wy) as i32)
    } else {
        ((src.0 as i64 + (p.0 as i64 - dst.0 as i64)) as i32, (src.1 as i64 + (p.1 as i64 - dst.1 as i64)) as i32)
    }
}

/// Appends the reload pairs for the box `[x0, x1) x [y0, y1)` of the new grid, row by row.
fn push_reload_box2(
    plan: &mut Vec<((i32, i32), (i32, i32))>,
    size: (u32, u32),
    src: (i32, i32),
    dst: (i32, i32),
    rolls: bool,
    x0: i64,
    x1: i64,
    y0: i64,
    y1: i64,
)
    requires
        placements_fit2(size, src, dst),
        rolls == rolls2(size, src, dst),
        dst.0 <= x0,
        x1 <= dst.0 + size.0,
        dst.1 <= y0,
        y1 <= dst.1 + size.1,
    ensures
        final(plan)@ == old(plan)@ + reload_pairs2(size, src, dst, rows2(x0 as int, x1 as int, y0 as int, y1 as int)),
{
    let ghost base = plan@;
    if y1 <= y0 {
        assert(rows2(x0 as int, x1 as int, y0 as int, y1 as int) =~= Seq::<(i32, i32)>::empty());
        assert(plan@ =~= base + reload_pairs2(size, src, dst, rows2(x0 as int, x1 as int, y0 as int, y1 as int)));
        return;
    }
    let mut y = y0;
    while y < y1
        invariant
            placements_fit2(size, src, dst),
            rolls == rolls2(size, src, dst),
            dst.0 <= x0,
            x1 <= dst.0 + size.0,
            dst.1 <= y0 <= y <= y1,
            y1 <= dst.1 + size.1,
            plan@ == base + reload_pairs2(size, src, dst, rows2(x0 as int, x1 as int, y0 as int, y as int)),
        decreases y1 - y,
    {
        let ghost before_row = plan@;
        let mut x = x0;
        if x1 > x0 {
            while x < x1
                invariant
                    placements_fit2(size, src, dst),
                    rolls == rolls2(size, src, dst),
                    dst.0 <= x0 <= x <= x1,
                    x1 <= dst.0 + size.0,
                    dst.1 <= y0 <= y < y1,
                    y1 <= dst.1 + size.1,
                    plan@ == before_row + reload_pairs2(size, src, dst, row2(x0 as int, x as int, y as int)),
                decreases x1 - x,
            {
                let p = (x as i32, y as i32);
                let prior = prior_position2(size, src, dst, rolls, p);
                plan.push((prior, p));
                proof {
                    assert(row2(x0 as int, x + 1, y as int) =~= row2(x0 as int, x as int, y as int).push(p));
                    assert(reload_pairs2(size, src, dst, row2(x0 as int, x + 1, y as int)) =~= reload_pairs2(size, src, dst, row2(x0 as int, x as int, y as int)).push((prior, p)));
                }
                x = x + 1;
            }
        }
        proof {
            let r = rows2(x0 as int, x1 as int, y0 as int, y as int);
            let row = row2(x0 as int, x1 as int, y as int);
            if x1 <= x0 {
                assert(row2(x0 as int, x as int, y as int) =~= row);
            }
            assert(rows2(x0 as int, x1 as int, y0 as int, y + 1) == r + row);
            assert(reload_pairs2(size, src, dst, r + row) =~= reload_pairs2(size, src, dst, r) + reload_pairs2(size, src, dst, row));
        }
        y = y + 1;
    }
}

/// The cells reloaded when a grid of the given size moves from `old` to `new`, as
/// `(old position, new position)` pairs in the order in which they are reloaded.
///
/// Every position of the new grid that is not in the old grid appears exactly once,
/// paired with the old position whose cell it takes over. On a roll the column strip
/// is reloaded first, then the row strip, then the corner, each row by row; otherwise
/// the whole new grid is reloaded row by row.
#[verifier::rlimit(60)]
#[verifier::spinoff_prover]
pub fn reposition_plan2(size: (u32, u32), src: (i32, i32), dst: (i32, i32)) -> (plan: Vec<((i32, i32), (i32, i32))>)
    requires
        placements_fit2(size, src, dst),
    ensures
        forall|k: int| 0 <= k < plan@.len() ==> {
            &&& in_grid2(size, dst, (#[trigger] plan@[k]).1)
            &&& !in_grid2(size, src, plan@[k].1)
            &&& plan@[k].0 == prior2(size, src, dst, plan@[k].1)
        },
        forall|p: (i32, i32)| in_grid2(size, dst, p) && !in_grid2(size, src, p) ==> exists|k: int| 0 <= k < plan@.len() && (#[trigger] plan@[k]).1 == p,
        rolls2(size, src, dst) ==> forall|i: int, j: int| 0 <= i < j < plan@.len() ==> reload_before2(size, src, (#[trigger] plan@[i]).1, (#[trigger] plan@[j]).1),
        !rolls2(size, src, dst) ==> forall|i: int, j: int| 0 <= i < j < plan@.len() ==> before2((#[trigger] plan@[i]).1, (#[trigger] plan@[j]).1),
        forall|i: int, j: int| 0 <= i < j < plan@.len() ==> (#[trigger] plan@[i]).1 != (#[trigger] plan@[j]).1,
{
    let w = size.0 as i64;
    let h = size.1 as i64;
    let (ox, oy) = (src.0 as i64, src.1 as i64);
    let (nx, ny) = (dst.0 as i64, dst.1 as i64);
    let dx = nx - ox;
    let dy = ny - oy;
    let rolls = -w < dx && dx < w && -h < dy && dy < h;
    let mut plan: Vec<((i32, i32), (i32, i32))> = Vec::new();
    if rolls {
        // The columns and rows of the new grid that were not in the old grid,
        // and the ones that were.
        let (out_x0, out_x1, in_x0, in_x1) = if dx >= 0 {
            (ox + w, nx + w, nx, ox + w)
        } else {
            (nx, ox, ox, nx + w)
        };
        let (out_y0, out_y1, in_y0, in_y1) = if dy >= 0 {
            (oy + h, ny + h, ny, oy + h)
        } else {
            (ny, oy, oy, ny + h)
        };
        push_reload_box2(&mut plan, size, src, dst, rolls, out_x0, out_x1, in_y0, in_y1);
        let ghost a = plan@;
        push_reload_box2(&mut plan, size, src, dst, rolls, in_x0, in_x1, out_y0, out_y1);
        let ghost ab = plan@;
        push_reload_box2(&mut plan, size, src, dst, rolls, out_x0, out_x1, out_y0, out_y1);
        proof {
            let ra = rows2(out_x0 as int, out_x1 as int, in_y0 as int, in_y1 as int);
            let rb = rows2(in_x0 as int, in_x1 as int, out_y0 as int, out_y1 as int);
            let rc = rows2(out_x0 as int, out_x1 as int, out_y0 as int, out_y1 as int);
            lemma_rows2(out_x0 as int, out_x1 as int, in_y0 as int, in_y1 as int);
            lemma_rows2(in_x0 as int, in_x1 as int, out_y0 as int, out_y1 as int);
            lemma_rows2(out_x0 as int, out_x1 as int, out_y0 as int, out_y1 as int);
            let s = ra + rb + rc;
            assert(plan@ =~= reload_pairs2(size, src, dst, s));
            assert forall|k: int| 0 <= k < s.len() implies {
                &&& in_grid2(size, dst, #[trigger] s[k])
                &&& !in_grid2(size, src, s[k])
                &&& (k < ra.len() ==> reload_part2(size, src, s[k]) == 0 && s[k] == ra[k])
                &&& (ra.len() <= k < ra.len() + rb.len() ==> reload_part2(size, src, s[k]) == 1 && s[k] == rb[k - ra.len()])
                &&& (ra.len() + rb.len() <= k ==> reload_part2(size, src, s[k]) == 2 && s[k] == rc[k - ra.len() - rb.len()])
            } by {
                if k < ra.len() {
                    assert(s[k] == ra[k]);
                } else if k < ra.len() + rb.len() {
                    assert(s[k] == rb[k - ra.len()]);
                } else {
                    assert(s[k] == rc[k - ra.len() - rb.len()]);
                }
            }
            assert forall|q: (i32, i32)| in_grid2(size, dst, q) && !in_grid2(size, src, q) implies exists|k: int| 0 <= k < plan@.len() && (#[trigger] plan@[k]).1 == q by {
                let in_x = src.0 <= q.0 < src.0 + size.0;
                let in_y = src.1 <= q.1 < src.1 + size.1;
                if !in_x && in_y {
                    assert(ra.contains(q));
                    let k = choose|k: int| 0 <= k < ra.len() && ra[k] == q;
                    assert(s[k] == q);
                    assert(plan@[k].1 == q);
                } else if in_x && !in_y {
                    assert(rb.contains(q));
                    let k = choose|k: int| 0 <= k < rb.len() && rb[k] == q;
                    assert(s[ra.len() + k] == q);
                    assert(plan@[ra.len() + k].1 == q);
                } else {
                    assert(rc.contains(q));
                    let k = choose|k: int| 0 <= k < rc.len() && rc[k] == q;
                    assert(s[ra.len() + rb.len() + k] == q);
                    assert(plan@[ra.len() + rb.len() + k].1 == q);
                }
            }
            assert forall|i: int, j: int| 0 <= i < j < plan@.len() implies reload_before2(size, src, (#[trigger] plan@[i]).1, (#[trigger] plan@[j]).1) by {
                assert(plan@[i].1 == s[i] && plan@[j].1 == s[j]);
                if j < ra.len() {
                    assert(before2(ra[i], ra[j]));
                } else if ra.len() <= i && j < ra.len() + rb.len() {
                    assert(before2(rb[i - ra.len()], rb[j - ra.len()]));
                } else if ra.len() + rb.len() <= i {
                    assert(before2(rc[i - ra.len() - rb.len()], rc[j - ra.len() - rb.len()]));
                }
            }
        }
    } else {
        push_reload_box2(&mut plan, size, src, dst, rolls, nx, nx + w, ny, ny + h);
        proof {
            let s = rows2(nx as int, nx + w, ny as int, ny + h);
            lemma_rows2(nx as int, nx + w, ny as int, ny + h);
            assert(plan@ =~= reload_pairs2(size, src, dst, s));
            assert forall|k: int| 0 <= k < plan@.len() implies {
                &&& in_grid2(size, dst, (#[trigger] plan@[k]).1)
                &&& !in_grid2(size, src, plan@[k].1)
                &&& plan@[k].0 == prior2(size, src, dst, plan@[k].1)
            } by {
                assert(plan@[k].1 == s[k]);
            }
            assert forall|q: (i32, i32)| in_grid2(size, dst, q) && !in_grid2(size, src, q) implies exists|k: int| 0 <= k < plan@.len() && (#[trigger] plan@[k]).1 == q by {
                assert(s.contains(q));
                let k = choose|k: int| 0 <= k < s.len() && s[k] == q;
                assert(plan@[k].1 == q);
            }
            assert forall|i: int, j: int| 0 <= i < j < plan@.len() implies before2((#[trigger] plan@[i]).1, (#[trigger] plan@[j]).1) by {
                assert(plan@[i].1 == s[i] && plan@[j].1 == s[j]);
            }
        }
    }
    plan
}

/// A grid of the given size placed at `offset` fits in the `i32` range and is not empty.
pub open spec fn placement_fits2(size: (u32, u32), offset: (i32, i32)) -> bool {
    &&& size.0 > 0
    &&& size.1 > 0
    &&& offset.0 + size.0 <= i32::MAX
    &&& offset.1 + size.1 <= i32::MAX
}

/// Whether two placed grids share a position.
pub open spec fn overlaps2(a_size: (u32, u32), a: (i32, i32), b_size: (u32, u32), b: (i32, i32)) -> bool {
    &&& a.0 < b.0 + b_size.0
    &&& b.0 < a.0 + a_size.0
    &&& a.1 < b.1 + b_size.1
    &&& b.1 < a.1 + a_size.1
}

/// When a grid is resized onto the placement `dst`, the part of the old grid a leaving
/// position falls in, in the order in which the parts are unloaded: `0` left of the new
/// grid (from its top row down), `1` above it, `2` right of it (down to its bottom row),
/// `3` below it.
pub open spec fn unload_part2(dst_size: (u32, u32), dst: (i32, i32), p: (i32, i32)) -> int {
    if p.0 < dst.0 && p.1 >= dst.1 {
        0
    } else if p.1 < dst.1 && p.0 < dst.0 + dst_size.0 {
        1
    } else if p.0 >= dst.0 + dst_size.0 && p.1 < dst.1 + dst_size.1 {
        2
    } else {
        3
    }
}

/// The order in which positions are unloaded when the grids overlap: by part, then row by row.
pub open spec fn unload_before2(dst_size: (u32, u32), dst: (i32, i32), a: (i32, i32), b: (i32, i32)) -> bool {
    unload_part2(dst_size, dst, a) < unload_part2(dst_size, dst, b) || (unload_part2(dst_size, dst, a)
        == unload_part2(dst_size, dst, b) && before2(a, b))
}

/// Appends the points of the box `[x0, x1) x [y0, y1)`, row by row.
fn push_box2(out: &mut Vec<(i32, i32)>, x0: i64, x1: i64, y0: i64, y1: i64)
    requires
        i32::MIN <= x0,
        x1 <= i32::MAX + 1,
        i32::MIN <= y0,
        y1 <= i32::MAX + 1,
    ensures
        final(out)@ == old(out)@ + rows2(x0 as int, x1 as int, y0 as int, y1 as int),
{
    let ghost base = out@;
    if y1 <= y0 {
        assert(rows2(x0 as int, x1 as int, y0 as int, y1 as int) =~= Seq::<(i32, i32)>::empty());
        assert(out@ =~= base + rows2(x0 as int, x1 as int, y0 as int, y1 as int));
        return;
    }
    let mut y = y0;
    while y < y1
        invariant
            i32::MIN <= x0,
            x1 <= i32::MAX + 1,
            i32::MIN <= y0 <= y <= y1,
            y1 <= i32::MAX + 1,
            out@ == base + rows2(x0 as int, x1 as int, y0 as int, y as int),
        decreases y1 - y,
    {
        let ghost before_row = out@;
        let mut x = x0;
        if x1 > x0 {
            while x < x1
                invariant
                    i32::MIN <= x0 <= x <= x1,
                    x1 <= i32::MAX + 1,
                    i32::MIN <= y0 <= y < y1,
                    y1 <= i32::MAX + 1,
                    out@ == before_row + row2(x0 as int, x as int, y as int),
                decreases x1 - x,
            {
                out.push((x as i32, y as i32));
                proof {
                    assert(row2(x0 as int, x + 1, y as int) =~= row2(x0 as int, x as int, y as int).push((x as i32, y as i32)));
                }
                x = x + 1;
            }
        }
        proof {
            if x1 <= x0 {
                assert(row2(x0 as int, x as int, y as int) =~= row2(x0 as int, x1 as int, y as int));
            }
            assert(rows2(x0 as int, x1 as int, y0 as int, y + 1) == rows2(x0 as int, x1 as int, y0 as int, y as int) + row2(x0 as int, x1 as int, y as int));
        }
        y = y + 1;
    }
}

/// The positions unloaded when a grid placed at `src` is resized onto the placement `dst`,
/// in the order in which they are unloaded.
///
/// Every position of the old grid that is not in the new grid appears exactly once. When
/// the grids overlap, the strips left of, above, right of and below the new grid are
/// unloaded in turn, each row by row; otherwise the whole old grid is unloaded row by row.
#[verifier::rlimit(60)]
#[verifier::spinoff_prover]
pub fn unload_plan2(src_size: (u32, u32), src: (i32, i32), dst_size: (u32, u32), dst: (i32, i32)) -> (plan: Vec<(i32, i32)>)
    requires
        placement_fits2(src_size, src),
        placement_fits2(dst_size, dst),
    ensures
        forall|k: int| 0 <= k < plan@.len() ==> in_grid2(src_size, src, #[trigger] plan@[k]) && !in_grid2(dst_size, dst, plan@[k]),
        forall|p: (i32, i32)| in_grid2(src_size, src, p) && !in_grid2(dst_size, dst, p) ==> plan@.contains(p),
        overlaps2(src_size, src, dst_size, dst) ==> forall|i: int, j: int| 0 <= i < j < plan@.len() ==> unload_before2(dst_size, dst, #[trigger] plan@[i], #[trigger] plan@[j]),
        !overlaps2(src_size, src, dst_size, dst) ==> sorted2(plan@),
        forall|i: int, j: int| 0 <= i < j < plan@.len() ==> #[trigger] plan@[i] != #[trigger] plan@[j],
{
    let (sx0, sy0) = (src.0 as i64, src.1 as i64);
    let (sx1, sy1) = (sx0 + src_size.0 as i64, sy0 + src_size.1 as i64);
    let (dx0, dy0) = (dst.0 as i64, dst.1 as i64);
    let (dx1, dy1) = (dx0 + dst_size.0 as i64, dy0 + dst_size.1 as i64);
    let mut plan: Vec<(i32, i32)> = Vec::new();
    if sx0 < dx1 && dx0 < sx1 && sy0 < dy1 && dy0 < sy1 {
        let a = (sx0, dx0, if dy0 > sy0 { dy0 } else { sy0 }, sy1);
        let b = (sx0, if dx1 < sx1 { dx1 } else { sx1 }, sy0, dy0);
        let c = (dx1, sx1, sy0, if dy1 < sy1 { dy1 } else { sy1 });
        let d = (if dx0 > sx0 { dx0 } else { sx0 }, sx1, dy1, sy1);
        push_box2(&mut plan, a.0, a.1, a.2, a.3);
        push_box2(&mut plan, b.0, b.1, b.2, b.3);
        push_box2(&mut plan, c.0, c.1, c.2, c.3);
        push_box2(&mut plan, d.0, d.1, d.2, d.3);
        proof {
            let ra = rows2(a.0 as int, a.1 as int, a.2 as int, a.3 as int);
            let rb = rows2(b.0 as int, b.1 as int, b.2 as int, b.3 as int);
            let rc = rows2(c.0 as int, c.1 as int, c.2 as int, c.3 as int);
            let rd = rows2(d.0 as int, d.1 as int, d.2 as int, d.3 as int);
            lemma_rows2(a.0 as int, a.1 as int, a.2 as int, a.3 as int);
            lemma_rows2(b.0 as int, b.1 as int, b.2 as int, b.3 as int);
            lemma_rows2(c.0 as int, c.1 as int, c.2 as int, c.3 as int);
            lemma_rows2(d.0 as int, d.1 as int, d.2 as int, d.3 as int);
            let s = ra + rb + rc + rd;
            assert(plan@ =~= s);
            let (la, lb, lc) = (ra.len() as int, rb.len() as int, rc.len() as int);
            assert forall|k: int| 0 <= k < s.len() implies {
                &&& in_grid2(src_size, src, #[trigger] s[k])
                &&& !in_grid2(dst_size, dst, s[k])
                &&& (k < la ==> unload_part2(dst_size, dst, s[k]) == 0 && s[k] == ra[k])
                &&& (la <= k < la + lb ==> unload_part2(dst_size, dst, s[k]) == 1 && s[k] == rb[k - la])
                &&& (la + lb <= k < la + lb + lc ==> unload_part2(dst_size, dst, s[k]) == 2 && s[k] == rc[k - la - lb])
                &&& (la + lb + lc <= k ==> unload_part2(dst_size, dst, s[k]) == 3 && s[k] == rd[k - la - lb - lc])
            } by {
                if k < la {
                    assert(s[k] == ra[k]);
                } else if k < la + lb {
                    assert(s[k] == rb[k - la]);
                } else if k < la + lb + lc {
                    assert(s[k] == rc[k - la - lb]);
                } else {
                    assert(s[k] == rd[k - la - lb - lc]);
                }
            }
            assert forall|q: (i32, i32)| in_grid2(src_size, src, q) && !in_grid2(dst_size, dst, q) implies plan@.contains(q) by {
                let part = unload_part2(dst_size, dst, q);
                if part == 0 {
                    assert(ra.contains(q));
                    let k = choose|k: int| 0 <= k < ra.len() && ra[k] == q;
                    assert(s[k] == q);
                } else if part == 1 {
                    assert(rb.contains(q));
                    let k = choose|k: int| 0 <= k < rb.len() && rb[k] == q;
                    assert(s[la + k] == q);
                } else if part == 2 {
                    assert(rc.contains(q));
                    let k = choose|k: int| 0 <= k < rc.len() && rc[k] == q;
                    assert(s[la + lb + k] == q);
                } else {
                    assert(rd.contains(q));
                    let k = choose|k: int| 0 <= k < rd.len() && rd[k] == q;
                    assert(s[la + lb + lc + k] == q);
                }
            }
            assert forall|i: int, j: int| 0 <= i < j < plan@.len() implies unload_before2(dst_size, dst, #[trigger] plan@[i], #[trigger] plan@[j]) by {
                if j < la {
                    assert(before2(ra[i], ra[j]));
                } else if la <= i && j < la + lb {
                    assert(before2(rb[i - la], rb[j - la]));
                } else if la + lb <= i && j < la + lb + lc {
                    assert(before2(rc[i - la - lb], rc[j - la - lb]));
                } else if la + lb + lc <= i {
                    assert(before2(rd[i - la - lb - lc], rd[j - la - lb - lc]));
                }
            }
        }
    } else {
        push_box2(&mut plan, sx0, sx1, sy0, sy1);
        proof {
            lemma_rows2(sx0 as int, sx1 as int, sy0 as int, sy1 as int);
            let s = rows2(sx0 as int, sx1 as int, sy0 as int, sy1 as int);
            assert(plan@ =~= s);
        }
    }
    plan
}

/// The `load` calls made while filling `cells` row by row over the region of the given
/// size at `offset`: one for each position outside the region of `prev_size` at
/// `prev_offset`, with the value put in its cell.
pub open spec fn fill_calls2<T>(prev_size: (u32, u32), prev_offset: (i32, i32), size: (u32, u32), offset: (i32, i32), cells: Seq<Option<T>>) -> Seq<Option<ManagerCall<(i32, i32), T>>> {
    Seq::new(
        cells.len(),
        |j: int|
            if in_grid2(prev_size, prev_offset, position2(size, offset, j)) {
                None
            } else {
                Some(ManagerCall::Load(position2(size, offset, j), cells[j]->0))
            },
    )
}

/// Whether `plan` lists, as `(old position, new position)`, exactly the positions that
/// enter a grid of the given size moving from `src` to `dst`, each once with the old
/// position it takes over, in the order of [reloads_before2].
pub open spec fn is_reload_plan2(size: (u32, u32), src: (i32, i32), dst: (i32, i32), plan: Seq<((i32, i32), (i32, i32))>) -> bool {
    &&& forall|k: int| 0 <= k < plan.len() ==> enters2(size, src, dst, (#[trigger] plan[k]).1) && plan[k].0 == prior2(size, src, dst, plan[k].1)
    &&& forall|p: (i32, i32)| enters2(size, src, dst, p) ==> exists|k: int| 0 <= k < plan.len() && (#[trigger] plan[k]).1 == p
    &&& forall|i: int, j: int| 0 <= i < j < plan.len() ==> reloads_before2(size, src, dst, (#[trigger] plan[i]).1, (#[trigger] plan[j]).1)
}

/// Whether `plan` lists exactly the positions that leave when a grid moves from
/// `src_size` at `src` to `dst_size` at `dst`, each once, in the order of
/// [unload_before2] when the placements overlap and row by row otherwise.
pub open spec fn is_unload_plan2(src_size: (u32, u32), src: (i32, i32), dst_size: (u32, u32), dst: (i32, i32), plan: Seq<(i32, i32)>) -> bool {
    &&& forall|k: int| 0 <= k < plan.len() ==> in_grid2(src_size, src, #[trigger] plan[k]) && !in_grid2(dst_size, dst, plan[k])
    &&& forall|p: (i32, i32)| in_grid2(src_size, src, p) && !in_grid2(dst_size, dst, p) ==> plan.contains(p)
    &&& overlaps2(src_size, src, dst_size, dst) ==> forall|i: int, j: int| 0 <= i < j < plan.len() ==> unload_before2(dst_size, dst, #[trigger] plan[i], #[trigger] plan[j])
    &&& !overlaps2(src_size, src, dst_size, dst) ==> sorted2(plan)
    &&& forall|i: int, j: int| 0 <= i < j < plan.len() ==> #[trigger] plan[i] != #[trigger] plan[j]
}

/// The index in the underlying array of the cell that holds position `p`, for a grid
/// of the given size, wrap offset and offset.
pub open spec fn slot2(size: (u32, u32), wrap: (u32, u32), offset: (i32, i32), p: (i32, i32)) -> int {
    wrap_once(p.1 - offset.1 + wrap.1, size.1 as int) * size.0 + wrap_once(p.0 - offset.0 + wrap.0, size.0 as int)
}

/// The cell that holds new position `p` after a grid moves from `src` to `dst` is the cell
/// that held `prior2(size, src, dst, p)` before, when the wrap offset follows the move on a
/// roll and stays the same otherwise.
pub proof fn lemma_move_slot2(size: (u32, u32), src: (i32, i32), dst: (i32, i32), wrap_src: (u32, u32), wrap_dst: (u32, u32), p: (i32, i32))
    requires
        placements_fit2(size, src, dst),
        wrap_src.0 < size.0,
        wrap_src.1 < size.1,
        wrap_dst.0 < size.0,
        wrap_dst.1 < size.1,
        rolls2(size, src, dst) ==> (wrap_dst.0 - wrap_src.0 - (dst.0 - src.0)) % (size.0 as int) == 0
            && (wrap_dst.1 - wrap_src.1 - (dst.1 - src.1)) % (size.1 as int) == 0,
        !rolls2(size, src, dst) ==> wrap_dst == wrap_src,
        in_grid2(size, dst, p),
    ensures
        in_grid2(size, src, prior2(size, src, dst, p)),
        slot2(size, wrap_dst, dst, p) == slot2(size, wrap_src, src, prior2(size, src, dst, p)),
        in_grid2(size, src, p) ==> prior2(size, src, dst, p) == p,
        !rolls2(size, src, dst) ==> !in_grid2(size, src, p),
{
    let w = size.0 as int;
    let h = size.1 as int;
    if rolls2(size, src, dst) {
        lemma_axis_roll(w, src.0 as int, dst.0 as int, wrap_src.0 as int, wrap_dst.0 as int, p.0 as int);
        lemma_axis_roll(h, src.1 as int, dst.1 as int, wrap_src.1 as int, wrap_dst.1 as int, p.1 as int);
    }
}

/// One axis of a roll: the cell holding `v` after the move held its congruent position before.
pub proof fn lemma_axis_roll(n: int, src: int, dst: int, ws: int, wd: int, v: int)
    requires
        0 < n,
        -n < dst - src < n,
        0 <= ws < n,
        0 <= wd < n,
        (wd - ws - (dst - src)) % n == 0,
        dst <= v < dst + n,
    ensures
        src <= congruent_in(v, src, n) < src + n,
        wrap_once(v - dst + wd, n) == wrap_once(congruent_in(v, src, n) - src + ws, n),
        src <= v < src + n ==> congruent_in(v, src, n) == v,
{
    lemma_mod_window(v - src, n);
    let k = wd - ws - (dst - src);
    assert(k == -n || k == 0 || k == n) by {
        if k < -n {
            vstd::arithmetic::div_mod::lemma_mod_add_multiples_vanish(k, n);
            lemma_mod_window(k + n, n);
        } else {
            lemma_mod_window(k, n);
        }
    }
}

/// The size and offset of a grid of the given size and offset inflated by `amount` on
/// each side of each axis.
pub open spec fn inflated2(size: (u32, u32), offset: (i32, i32), amount: (u32, u32)) -> ((u32, u32), (i32, i32)) {
    (
        ((size.0 + 2 * amount.0) as u32, (size.1 + 2 * amount.1) as u32),
        ((offset.0 - amount.0) as i32, (offset.1 - amount.1) as i32),
    )
}

/// The size and offset of a grid of the given size and offset deflated by `amount` on
/// each side of each axis.
pub open spec fn deflated2(size: (u32, u32), offset: (i32, i32), amount: (u32, u32)) -> ((u32, u32), (i32, i32)) {
    (
        ((size.0 - 2 * amount.0) as u32, (size.1 - 2 * amount.1) as u32),
        ((offset.0 + amount.0) as i32, (offset.1 + amount.1) as i32),
    )
}

/// Inflating moves the minimum of each axis down, and its maximum up, by that axis's
/// own amount, which keeps the bounds centred (twice the offset plus the size is
/// unchanged on each axis); deflating by the amount a grid was inflated by gives back
/// its size and offset.
pub proof fn lemma_inflate_deflate2(size: (u32, u32), offset: (i32, i32), amount: (u32, u32))
    requires
        size.0 + 2 * amount.0 <= u32::MAX,
        size.1 + 2 * amount.1 <= u32::MAX,
        offset.0 - amount.0 >= i32::MIN,
        offset.1 - amount.1 >= i32::MIN,
    ensures
        ({
            let (s, o) = inflated2(size, offset, amount);
            &&& o.0 == offset.0 - amount.0
            &&& o.0 + s.0 == offset.0 + size.0 + amount.0
            &&& o.1 == offset.1 - amount.1
            &&& o.1 + s.1 == offset.1 + size.1 + amount.1
            &&& 2 * o.0 + s.0 == 2 * offset.0 + size.0
            &&& 2 * o.1 + s.1 == 2 * offset.1 + size.1
            &&& deflated2(s, o, amount) == (size, offset)
        }),
{
}

/// Deflating moves the minimum of each axis up, and its maximum down, by that axis's
/// own amount; inflating by the same amount then gives back the size and offset.
pub proof fn lemma_deflate_inflate2(size: (u32, u32), offset: (i32, i32), amount: (u32, u32))
    requires
        2 * amount.0 < size.0,
        2 * amount.1 < size.1,
        offset.0 + amount.0 <= i32::MAX,
        offset.1 + amount.1 <= i32::MAX,
    ensures
        ({
            let (s, o) = deflated2(size, offset, amount);
            &&& o.0 == offset.0 + amount.0
            &&& o.0 + s.0 == offset.0 + size.0 - amount.0
            &&& o.1 == offset.1 + amount.1
            &&& o.1 + s.1 == offset.1 + size.1 - amount.1
            &&& 2 * o.0 + s.0 == 2 * offset.0 + size.0
            &&& 2 * o.1 + s.1 == 2 * offset.1 + size.1
            &&& inflated2(s, o, amount) == (size, offset)
        }),
{
}

/// A 2D implementation of a rolling grid. It's a data structure similar
/// to a circular buffer in the sense that cells can wrap around.
/// It uses a wrap offset to create the illusion that cells are being moved
/// while the cells remain in the same position in the underlying array.
///
/// Every cell of a grid holds a value, except after a fallible resize failed part way:
/// the cells that had been handed to the unload function are then empty.
pub struct RollGrid2D<T> {
    cells: Vec<Option<T>>,
    size: (u32, u32),
    wrap_offset: (u32, u32),
    grid_offset: (i32, i32),
}

impl<T> View for RollGrid2D<T> {
    type V = Map<(i32, i32), T>;

    /// The value held for each position of the grid whose cell is not empty.
    closed spec fn view(&self) -> Map<(i32, i32), T> {
        Map::new(
            |p: (i32, i32)| self.in_bounds(p) && self.cells@[self.slot(p)] is Some,
            |p: (i32, i32)| self.cells@[self.slot(p)]->0,
        )
    }
}

impl<T> RollGrid2D<T> {
    /// The internal invariant of the grid.
    pub closed spec fn wf(&self) -> bool {
        &&& self.size.0 > 0
        &&& self.size.1 > 0
        &&& self.cells@.len() == self.size.0 * self.size.1
        &&& self.size.0 * self.size.1 <= usize::MAX
        &&& self.grid_offset.0 + self.size.0 <= i32::MAX
        &&& self.grid_offset.1 + self.size.1 <= i32::MAX
        &&& self.wrap_offset.0 < self.size.0
        &&& self.wrap_offset.1 < self.size.1
    }

    /// Every position of the grid holds a value.
    pub open spec fn full(&self) -> bool {
        forall|p: (i32, i32)| #[trigger] self.in_bounds(p) ==> self@.contains_key(p)
    }

    /// Positions in both this grid and `prev` hold the same contents, and the grid is full
    /// if `prev` was.
    pub open spec fn keeps(&self, prev: &Self) -> bool {
        &&& forall|p: (i32, i32)| prev.in_bounds(p) && self.in_bounds(p) ==> (#[trigger] self@.contains_key(p) <==> prev@.contains_key(p))
        &&& forall|p: (i32, i32)| prev.in_bounds(p) && self.in_bounds(p) && prev@.contains_key(p) ==> #[trigger] self@[p] == prev@[p]
        &&& prev.full() ==> self.full()
    }

    /// This grid is `prev` resized to `size` and moved to `position`.
    pub open spec fn resized_from(&self, prev: &Self, size: (u32, u32), position: (i32, i32)) -> bool {
        &&& self.wf()
        &&& self.grid_size() == size
        &&& self.grid_offset() == position
        &&& self.keeps(prev)
    }

    /// The state a fallible resize of `prev` to `size` at `position` leaves when a manager
    /// function fails: either the grid kept its size and offset and only lost cells, or it
    /// was only being moved, and has moved.
    pub open spec fn resize_stopped(&self, prev: &Self, size: (u32, u32), position: (i32, i32)) -> bool {
        &&& self.wf()
        &&& {
            ||| {
                &&& self.grid_size() == prev.grid_size()
                &&& self.grid_offset() == prev.grid_offset()
                &&& forall|p: (i32, i32)| #[trigger] self@.contains_key(p) ==> prev@.contains_key(p) && self@[p] == prev@[p]
            }
            ||| {
                &&& prev.grid_size() == size
                &&& self.grid_size() == size
                &&& self.grid_offset() == position
                &&& forall|p: (i32, i32)| prev.in_bounds(p) && self.in_bounds(p) ==> (#[trigger] self@.contains_key(p) <==> prev@.contains_key(p))
                &&& forall|p: (i32, i32)| prev.in_bounds(p) && self.in_bounds(p) && prev@.contains_key(p) ==> #[trigger] self@[p] == prev@[p]
            }
        }
    }

    /// The `reload` calls of a move of `prev` into this grid, one for each entry
    /// `(old position, new position)` of `plan` whose new position held a value in `prev`:
    /// the value it held, and the value it holds in this grid. `None` stands for no call.
    pub open spec fn reload_calls(&self, prev: &Self, plan: Seq<((i32, i32), (i32, i32))>) -> Seq<Option<ManagerCall<(i32, i32), T>>> {
        plan.map_values(|e: ((i32, i32), (i32, i32))|
            if prev@.contains_key(e.1) {
                Some(ManagerCall::Reload(e.0, e.1, prev@[e.1], self@[e.1]))
            } else {
                None
            })
    }

    /// The `reload` calls of a move of `prev` to the offset of this grid, one for each
    /// entry `(old position, new position)` of `plan` whose old position held a value in
    /// `prev`: that value, and the value the new position holds in this grid.
    pub open spec fn move_calls(&self, prev: &Self, plan: Seq<((i32, i32), (i32, i32))>) -> Seq<Option<ManagerCall<(i32, i32), T>>> {
        plan.map_values(|e: ((i32, i32), (i32, i32))|
            if prev@.contains_key(e.0) {
                Some(ManagerCall::Reload(e.0, e.1, prev@[e.0], self@[e.1]))
            } else {
                None
            })
    }

    /// The `unload` calls of a resize of `prev`, one for each position of `plan` that held
    /// a value in `prev`, with that value.
    pub open spec fn unload_calls(prev: &Self, plan: Seq<(i32, i32)>) -> Seq<Option<ManagerCall<(i32, i32), T>>> {
        plan.map_values(|p: (i32, i32)|
            if prev@.contains_key(p) {
                Some(ManagerCall::Unload(p, prev@[p]))
            } else {
                None
            })
    }

    /// The `load` calls of a resize of `prev` into this grid: row by row over this grid,
    /// one for each position outside `prev`, with the value it holds in this grid.
    pub open spec fn load_calls(&self, prev: &Self) -> Seq<Option<ManagerCall<(i32, i32), T>>> {
        Seq::new(
            (self.grid_size().0 * self.grid_size().1) as nat,
            |i: int|
                if prev.in_bounds(position2(self.grid_size(), self.grid_offset(), i)) {
                    None
                } else {
                    Some(ManagerCall::Load(position2(self.grid_size(), self.grid_offset(), i), self@[position2(self.grid_size(), self.grid_offset(), i)]))
                },
        )
    }

    /// Whether this grid is what a resize or move of `prev` with the manager `manage` makes:
    /// at the same size, `manage` reloads the positions that enter, in the order of a
    /// reload plan; at another size, it unloads the positions that leave, in the order of
    /// an unload plan, then loads the positions that enter, row by row.
    pub open spec fn managed_from<M: CellManage<(i32, i32), T>>(&self, prev: &Self, manage: M) -> bool {
        if self.grid_size() == prev.grid_size() {
            exists|plan: Seq<((i32, i32), (i32, i32))>|
                #[trigger] is_reload_plan2(prev.grid_size(), prev.grid_offset(), self.grid_offset(), plan)
                    && manager_runs(manage, self.move_calls(prev, plan))
        } else {
            exists|plan: Seq<(i32, i32)>|
                #[trigger] is_unload_plan2(prev.grid_size(), prev.grid_offset(), self.grid_size(), self.grid_offset(), plan)
                    && manager_runs(manage, Self::unload_calls(prev, plan) + self.load_calls(prev))
        }
    }

    /// [RollGrid2D::managed_from] for a fallible manager, each of whose calls succeeded.
    pub open spec fn try_managed_from<E, M: TryCellManage<(i32, i32), T, E>>(&self, prev: &Self, manage: M) -> bool {
        if self.grid_size() == prev.grid_size() {
            exists|plan: Seq<((i32, i32), (i32, i32))>|
                #[trigger] is_reload_plan2(prev.grid_size(), prev.grid_offset(), self.grid_offset(), plan)
                    && try_manager_runs::<(i32, i32), T, E, M>(manage, self.move_calls(prev, plan))
        } else {
            exists|plan: Seq<(i32, i32)>|
                #[trigger] is_unload_plan2(prev.grid_size(), prev.grid_offset(), self.grid_size(), self.grid_offset(), plan)
                    && try_manager_runs::<(i32, i32), T, E, M>(manage, Self::unload_calls(prev, plan) + self.load_calls(prev))
        }
    }

    /// Whether this grid is what a move of `prev` along `plan` with the fallible manager
    /// `manage` leaves when the reload of entry `k` fails with `e`: the reloads planned
    /// before it succeeded, the new positions hold values where their old positions did,
    /// and those planned after it keep the values of the cells they took over.
    pub open spec fn move_stopped<E, M: TryCellManage<(i32, i32), T, E>>(&self, prev: &Self, plan: Seq<((i32, i32), (i32, i32))>, manage: M, e: E) -> bool {
        &&& forall|j: int| 0 <= j < plan.len() ==> (self@.contains_key((#[trigger] plan[j]).1) <==> prev@.contains_key(plan[j].0))
        &&& exists|k: int|
            0 <= k < plan.len() && prev@.contains_key(plan[k].0) && #[trigger] try_manager_stops::<(i32, i32), T, E, M>(
                manage,
                self.move_calls(prev, plan).take(k),
                ManagerCall::Reload(plan[k].0, plan[k].1, prev@[plan[k].0], self@[plan[k].1]),
                e,
            ) && forall|j: int| k < j < plan.len() && prev@.contains_key(plan[j].0) ==> #[trigger] self@[plan[j].1] == prev@[plan[j].0]
    }

    /// Whether this grid is what a resize of `prev` along the unload plan `plan` with the
    /// fallible manager `manage` leaves when it stops at the unload of entry `k`, which
    /// fails with `e` after the unloads planned before it succeeded: the cells of the
    /// entries up to `k` are empty, and the others hold what they held.
    pub open spec fn unload_stopped<E, M: TryCellManage<(i32, i32), T, E>>(&self, prev: &Self, plan: Seq<(i32, i32)>, manage: M, e: E) -> bool {
        exists|k: int|
            0 <= k < plan.len() && prev@.contains_key(plan[k]) && #[trigger] try_manager_stops::<(i32, i32), T, E, M>(
                manage,
                Self::unload_calls(prev, plan).take(k),
                ManagerCall::Unload(plan[k], prev@[plan[k]]),
                e,
            ) && forall|q: (i32, i32)|
                #![trigger self@.contains_key(q)]
                #![trigger prev@.contains_key(q)]
                self@.contains_key(q) <==> (prev@.contains_key(q) && !plan.take(k + 1).contains(q))
    }

    /// Whether this grid is what a resize of `prev` to `size` at `position` along the
    /// unload plan `plan` with the fallible manager `manage` leaves when it stops at a
    /// load, which fails with `e` after every planned unload and the loads of the positions
    /// filled before it, row by row, succeeded: the cells of the plan, and those of the
    /// positions filled before it, are empty, and the others hold what they held.
    pub open spec fn load_stopped<E, M: TryCellManage<(i32, i32), T, E>>(&self, prev: &Self, size: (u32, u32), position: (i32, i32), plan: Seq<(i32, i32)>, manage: M, e: E) -> bool {
        exists|cells: Seq<Option<T>>, v: T|
            cells.len() < size.0 * size.1 && !prev.in_bounds(position2(size, position, cells.len() as int)) && #[trigger] try_manager_stops::<(i32, i32), T, E, M>(
                manage,
                Self::unload_calls(prev, plan) + fill_calls2(prev.grid_size(), prev.grid_offset(), size, position, cells),
                ManagerCall::Load(position2(size, position, cells.len() as int), v),
                e,
            ) && forall|q: (i32, i32)|
                #![trigger self@.contains_key(q)]
                #![trigger prev@.contains_key(q)]
                self@.contains_key(q) <==> (prev@.contains_key(q) && !plan.contains(q) && !(in_grid2(size, position, q) && index2(size, position, q) < cells.len()))
    }

    /// Whether the fallible manager `manage` may have made the calls that a resize of `prev`
    /// to `size` at `position` makes up to the one that failed with `e`, and this grid is
    /// what such a resize leaves then: at the same size, a move stopped as
    /// [RollGrid2D::move_stopped] says; at another size, an unload or a load that failed.
    pub open spec fn try_stopped_from<E, M: TryCellManage<(i32, i32), T, E>>(&self, prev: &Self, size: (u32, u32), position: (i32, i32), manage: M, e: E) -> bool {
        if size == prev.grid_size() {
            exists|plan: Seq<((i32, i32), (i32, i32))>|
                #[trigger] is_reload_plan2(prev.grid_size(), prev.grid_offset(), position, plan) && self.move_stopped(prev, plan, manage, e)
        } else {
            exists|plan: Seq<(i32, i32)>|
                #[trigger] is_unload_plan2(prev.grid_size(), prev.grid_offset(), size, position, plan) && (self.unload_stopped(prev, plan, manage, e)
                    || self.load_stopped(prev, size, position, plan, manage, e))
        }
    }

    /// The dimensions of the grid.
    pub closed spec fn grid_size(&self) -> (u32, u32) {
        self.size
    }

    /// The position of the grid's minimum corner.
    pub closed spec fn grid_offset(&self) -> (i32, i32) {
        self.grid_offset
    }

    /// Whether `p` lies inside the grid.
    #[verifier::inline]
    pub open spec fn in_bounds(&self, p: (i32, i32)) -> bool {
        in_grid2(self.grid_size(), self.grid_offset(), p)
    }

    /// The index in the underlying array of the cell that holds position `p`.
    pub closed spec fn slot(&self, p: (i32, i32)) -> int {
        slot2(self.size, self.wrap_offset, self.grid_offset, p)
    }

    /// Only positions inside the grid have values.
    pub proof fn lemma_view_domain(&self)
        ensures
            forall|p: (i32, i32)| #[trigger] self@.contains_key(p) ==> self.in_bounds(p),
            self.full() ==> forall|p: (i32, i32)| #[trigger] self@.contains_key(p) <==> self.in_bounds(p),
    {
    }

    /// Distinct positions of the grid live in distinct cells of the array.
    pub proof fn lemma_slot(&self, p: (i32, i32), q: (i32, i32))
        requires
            self.wf(),
            self.in_bounds(p),
            self.in_bounds(q),
        ensures
            0 <= self.slot(p) < self.grid_size().0 * self.grid_size().1,
            self.slot(p) == self.slot(q) ==> p == q,
    {
        let w = self.size.0 as int;
        let h = self.size.1 as int;
        let px = wrap_once(p.0 - self.grid_offset.0 + self.wrap_offset.0, w);
        let py = wrap_once(p.1 - self.grid_offset.1 + self.wrap_offset.1, h);
        let qx = wrap_once(q.0 - self.grid_offset.0 + self.wrap_offset.0, w);
        let qy = wrap_once(q.1 - self.grid_offset.1 + self.wrap_offset.1, h);
        lemma_row_major(w, h, px, py, qx, qy);
    }

    /// The grid has a wrapping offset, which dictates the lookup order of cells.
    /// This method finds the index of the cell holding a world position.
    fn offset_index(&self, coord: (i32, i32)) -> (r: Option<usize>)
        requires
            self.wf(),
        ensures
            r is Some <==> self.in_bounds(coord),
            r matches Some(i) ==> i == self.slot(coord) && i < self.cells@.len(),
    {
        let (x, y) = (coord.0 as i64, coord.1 as i64);
        let (mx, my) = (self.grid_offset.0 as i64, self.grid_offset.1 as i64);
        let width = self.size.0 as i64;
        let height = self.size.1 as i64;
        if x >= mx + width || y >= my + height || x < mx || y < my {
            return None;
        }
        let nx = x - mx + self.wrap_offset.0 as i64;
        let ny = y - my + self.wrap_offset.1 as i64;
        let wx = if nx >= width { nx - width } else { nx };
        let wy = if ny >= height { ny - height } else { ny };
        proof {
            self.lemma_slot(coord, coord);
        }
        Some(wy as usize * self.size.0 as usize + wx as usize)
    }

    /// Builds a grid from the cells of a freshly initialized array.
    fn from_fixed(cells: FixedArray<T>, size: (u32, u32), grid_offset: (i32, i32)) -> (r: Self)
        requires
            cells.wf(),
            cells@.len() == size.0 * size.1,
            size.0 * size.1 > 0,
            size.0 * size.1 <= usize::MAX,
            grid_offset.0 + size.0 <= i32::MAX,
            grid_offset.1 + size.1 <= i32::MAX,
        ensures
            r.wf(),
            r.full(),
            r.grid_size() == size,
            r.grid_offset() == grid_offset,
            forall|p: (i32, i32)| #[trigger] r.in_bounds(p) ==> r@[p] == cells@[index2(size, grid_offset, p)],
    {
        let ghost c = cells@;
        let slots = cells.into_slots();
        assert(size.0 > 0 && size.1 > 0) by (nonlinear_arith)
            requires
                size.0 * size.1 > 0,
        ;
        let r = Self { cells: slots, size, wrap_offset: (0, 0), grid_offset };
        assert forall|p: (i32, i32)| #[trigger] r.in_bounds(p) implies r@.contains_key(p) && r@[p] == c[index2(size, grid_offset, p)] by {
            lemma_index2(size, grid_offset, p, p);
        }
        r
    }

    /// Create a new [RollGrid2D] using an initialize function to initialize cells.
    ///
    /// The init function should take as input the coordinate that is being
    /// initialized, and should return the desired value for the cell.
    ///
    /// `init` is called once for every position, also when `T` is zero-sized: a value of
    /// `T` is only ever made by `init`.
    pub fn new<F: FnMut((i32, i32)) -> T>(width: u32, height: u32, grid_offset: (i32, i32), init: F) -> (r: Self)
        requires
            width * height > 0,
            width * height <= usize::MAX,
            grid_offset.0 + width <= i32::MAX,
            grid_offset.1 + height <= i32::MAX,
            forall|p: (i32, i32)| call_requires(init, (p,)),
        ensures
            r.wf(),
            r.full(),
            r.grid_size() == (width, height),
            r.grid_offset() == grid_offset,
            forall|p: (i32, i32)| r.in_bounds(p) ==> call_ensures(init, (p,), #[trigger] r@[p]),
    {
        let cells = FixedArray::new_2d((width, height), grid_offset, init);
        Self::from_fixed(cells, (width, height), grid_offset)
    }

    /// Try to create a new [RollGrid2D] using a fallible initialize function to initialize elements.
    /// Stops at the first error and returns it.
    ///
    /// The init function should take as input the coordinate that is being
    /// initialized, and should return the desired value for the cell.
    /// The error returned is that of the first position, in iteration order, whose
    /// initialization failed.
    ///
    /// `init` is called once for every position, also when `T` is zero-sized: a value of
    /// `T` is only ever made by `init`.
    pub fn try_new<E, F: FnMut((i32, i32)) -> Result<T, E>>(width: u32, height: u32, grid_offset: (i32, i32), init: F) -> (r: Result<Self, E>)
        requires
            width * height > 0,
            width * height <= usize::MAX,
            grid_offset.0 + width <= i32::MAX,
            grid_offset.1 + height <= i32::MAX,
            forall|p: (i32, i32)| call_requires(init, (p,)),
        ensures
            r matches Ok(g) ==> {
                &&& g.wf()
                &&& g.full()
                &&& g.grid_size() == (width, height)
                &&& g.grid_offset() == grid_offset
                &&& forall|p: (i32, i32)| g.in_bounds(p) ==> call_ensures(init, (p,), Ok::<T, E>(#[trigger] g@[p]))
            },
            r is Err ==> exists|p: (i32, i32)| in_grid2((width, height), grid_offset, p) && #[trigger] call_ensures(init, (p,), Err::<T, E>(r->Err_0)) && forall|q: (i32, i32)|
                #![trigger in_grid2((width, height), grid_offset, q)]
                in_grid2((width, height), grid_offset, q) && (q.1 < p.1 || (q.1 == p.1 && q.0 < p.0)) ==> exists|v: T| #[trigger] call_ensures(init, (q,), Ok::<T, E>(v)),
    {
        let res = FixedArray::try_new_2d((width, height), grid_offset, init);
        let cells = match res {
            Ok(c) => c,
            Err(e) => {
                let r: Result<Self, E> = Err(e);
                proof {
                    assert(res->Err_0 == r->Err_0);
                }
                return r;
            },
        };
        Ok(Self::from_fixed(cells, (width, height), grid_offset))
    }

    /// Get the offset relative to the grid's offset.
    pub fn relative_offset(&self, coord: (i32, i32)) -> (r: (i64, i64))
        ensures
            r == ((coord.0 - self.grid_offset().0) as i64, (coord.1 - self.grid_offset().1) as i64),
    {
        (coord.0 as i64 - self.grid_offset.0 as i64, coord.1 as i64 - self.grid_offset.1 as i64)
    }

    /// Moves the grid's offset to `position` without reloading anything, and returns the
    /// cells that must be reloaded.
    fn begin_reposition(&mut self, position: (i32, i32)) -> (plan: Vec<((i32, i32), (i32, i32))>)
        requires
            old(self).wf(),
            placements_fit2(old(self).grid_size(), old(self).grid_offset(), position),
        ensures
            final(self).wf(),
            final(self).grid_size() == old(self).grid_size(),
            final(self).grid_offset() == position,
            forall|p: (i32, i32)| #[trigger] final(self).in_bounds(p) ==> {
                &&& old(self).in_bounds(prior2(old(self).grid_size(), old(self).grid_offset(), position, p))
                &&& final(self).cells@[final(self).slot(p)] == old(self).cells@[old(self).slot(prior2(old(self).grid_size(), old(self).grid_offset(), position, p))]
                &&& old(self).in_bounds(p) ==> prior2(old(self).grid_size(), old(self).grid_offset(), position, p) == p
            },
            forall|k: int| 0 <= k < plan@.len() ==> {
                &&& final(self).in_bounds((#[trigger] plan@[k]).1)
                &&& !old(self).in_bounds(plan@[k].1)
                &&& plan@[k].0 == prior2(old(self).grid_size(), old(self).grid_offset(), position, plan@[k].1)
            },
            forall|p: (i32, i32)| final(self).in_bounds(p) && !old(self).in_bounds(p) ==> exists|k: int| 0 <= k < plan@.len() && (#[trigger] plan@[k]).1 == p,
            forall|i: int, j: int| 0 <= i < j < plan@.len() ==> (#[trigger] plan@[i]).1 != (#[trigger] plan@[j]).1,
            forall|i: int, j: int| 0 <= i < j < plan@.len() ==> reloads_before2(old(self).grid_size(), old(self).grid_offset(), position, (#[trigger] plan@[i]).1, (#[trigger] plan@[j]).1),
    {
        let size = self.size;
        let src = self.grid_offset;
        let plan = reposition_plan2(size, src, position);
        let w = size.0 as i64;
        let h = size.1 as i64;
        let dx = position.0 as i64 - src.0 as i64;
        let dy = position.1 as i64 - src.1 as i64;
        if -w < dx && dx < w && -h < dy && dy < h {
            let tx = self.wrap_offset.0 as i64 + dx;
            let ty = self.wrap_offset.1 as i64 + dy;
            let wx = if tx < 0 { tx + w } else if tx >= w { tx - w } else { tx };
            let wy = if ty < 0 { ty + h } else if ty >= h { ty - h } else { ty };
            proof {
                assert((wx - self.wrap_offset.0 - dx) % (w as int) == 0) by {
                    lemma_mod_window(wx - self.wrap_offset.0 - dx, w as int);
                }
                assert((wy - self.wrap_offset.1 - dy) % (h as int) == 0) by {
                    lemma_mod_window(wy - self.wrap_offset.1 - dy, h as int);
                }
            }
            self.wrap_offset = (wx as u32, wy as u32);
        }
        self.grid_offset = position;
        proof {
            assert forall|p: (i32, i32)| #[trigger] self.in_bounds(p) implies {
                &&& old(self).in_bounds(prior2(size, src, position, p))
                &&& self.cells@[self.slot(p)] == old(self).cells@[old(self).slot(prior2(size, src, position, p))]
                &&& old(self).in_bounds(p) ==> prior2(size, src, position, p) == p
            } by {
                lemma_move_slot2(size, src, position, old(self).wrap_offset, self.wrap_offset, p);
            }
        }
        plan
    }

    /// After moving the offset, positions in both placements keep their contents, and a
    /// full grid stays full.
    proof fn lemma_moved(&self, moved: &Self)
        requires
            self.wf(),
            moved.wf(),
            moved.grid_size() == self.grid_size(),
            placements_fit2(self.grid_size(), self.grid_offset(), moved.grid_offset()),
            forall|p: (i32, i32)| #[trigger] moved.in_bounds(p) ==> {
                &&& self.in_bounds(prior2(self.grid_size(), self.grid_offset(), moved.grid_offset(), p))
                &&& moved.cells@[moved.slot(p)] == self.cells@[self.slot(prior2(self.grid_size(), self.grid_offset(), moved.grid_offset(), p))]
                &&& self.in_bounds(p) ==> prior2(self.grid_size(), self.grid_offset(), moved.grid_offset(), p) == p
            },
        ensures
            forall|p: (i32, i32)| self.in_bounds(p) && moved.in_bounds(p) ==> (#[trigger] moved@.contains_key(p) <==> self@.contains_key(p)),
            forall|p: (i32, i32)| self.in_bounds(p) && moved.in_bounds(p) && self@.contains_key(p) ==> #[trigger] moved@[p] == self@[p],
            self.full() ==> moved.full(),
    {
        assert forall|p: (i32, i32)| #[trigger] moved.in_bounds(p) && self.full() implies moved@.contains_key(p) by {
            let q = prior2(self.grid_size(), self.grid_offset(), moved.grid_offset(), p);
            assert(self.in_bounds(q));
        }
    }

    /// Calls `reload` on the cell of each planned new position.
    fn reload_planned<F: FnMut((i32, i32), (i32, i32), &mut T)>(&mut self, plan: &Vec<((i32, i32), (i32, i32))>, src_bounds: Ghost<Bounds2D>, reload: F)
        requires
            old(self).wf(),
            forall|a: (i32, i32), b: (i32, i32), c: &mut T| call_requires(reload, (a, b, c)),
            forall|k: int| 0 <= k < plan@.len() ==> {
                &&& old(self).in_bounds((#[trigger] plan@[k]).1)
                &&& !src_bounds@.contains_spec(plan@[k].1)
            },
            forall|i: int, j: int| 0 <= i < j < plan@.len() ==> (#[trigger] plan@[i]).1 != (#[trigger] plan@[j]).1,
        ensures
            final(self).wf(),
            final(self).grid_size() == old(self).grid_size(),
            final(self).grid_offset() == old(self).grid_offset(),
            forall|p: (i32, i32)| #[trigger] old(self).in_bounds(p) ==> (final(self)@.contains_key(p) <==> old(self)@.contains_key(p)),
            forall|p: (i32, i32)| old(self).in_bounds(p) && src_bounds@.contains_spec(p) && old(self)@.contains_key(p) ==> #[trigger] final(self)@[p] == old(self)@[p],
            forall|k: int|
                #![trigger plan@[k]]
                0 <= k < plan@.len() && old(self)@.contains_key(plan@[k].1) ==> exists|c: &mut T|
                    *c == old(self)@[plan@[k].1] && *final(c) == final(self)@[plan@[k].1] && #[trigger] call_ensures(reload, (plan@[k].0, plan@[k].1, c), ()),
    {
        let ghost reload0 = reload;
        let mut reload = reload;
        let mut i: usize = 0;
        while i < plan.len()
            invariant
                self.wf(),
                self.grid_size() == old(self).grid_size(),
                self.grid_offset() == old(self).grid_offset(),
                reload == reload0,
                forall|a: (i32, i32), b: (i32, i32), c: &mut T| call_requires(reload0, (a, b, c)),
                forall|k: int| 0 <= k < plan@.len() ==> {
                    &&& old(self).in_bounds((#[trigger] plan@[k]).1)
                    &&& !src_bounds@.contains_spec(plan@[k].1)
                },
                forall|p: (i32, i32)| #[trigger] old(self).in_bounds(p) ==> (self@.contains_key(p) <==> old(self)@.contains_key(p)),
                forall|p: (i32, i32)| old(self).in_bounds(p) && src_bounds@.contains_spec(p) && old(self)@.contains_key(p) ==> #[trigger] self@[p] == old(self)@[p],
                forall|i: int, j: int| 0 <= i < j < plan@.len() ==> (#[trigger] plan@[i]).1 != (#[trigger] plan@[j]).1,
                0 <= i <= plan@.len(),
                forall|k: int| 0 <= k < plan@.len() && !(k < i) && old(self)@.contains_key(plan@[k].1) ==> #[trigger] self@[plan@[k].1] == old(self)@[plan@[k].1],
                forall|k: int|
                    #![trigger plan@[k]]
                    0 <= k < i && old(self)@.contains_key(plan@[k].1) ==> exists|c: &mut T|
                        *c == old(self)@[plan@[k].1] && *final(c) == self@[plan@[k].1] && #[trigger] call_ensures(reload0, (plan@[k].0, plan@[k].1, c), ()),
            decreases plan@.len() - i,
        {
            let (prior, p) = plan[i];
            let index = self.offset_index(p).unwrap();
            let ghost before = *self;
            proof {
                assert forall|q: (i32, i32)| #[trigger] old(self).in_bounds(q) && q != p implies slot2(self.size, self.wrap_offset, self.grid_offset, q) != index
                    && 0 <= slot2(self.size, self.wrap_offset, self.grid_offset, q) < self.cells@.len() by {
                    self.lemma_slot(q, p);
                }
            }
            match &mut self.cells[index] {
                Some(cell) => reload(prior, p, cell),
                None => {},
            }
            proof {
                assert forall|q: (i32, i32)| #[trigger] old(self).in_bounds(q) implies (self@.contains_key(q) <==> before@.contains_key(q)) by {
                    if q != p {
                        assert(self.cells@[self.slot(q)] == before.cells@[before.slot(q)]);
                    }
                }
                assert forall|q: (i32, i32)| old(self).in_bounds(q) && src_bounds@.contains_spec(q) && old(self)@.contains_key(q) implies #[trigger] self@[q] == old(self)@[q] by {
                    assert(q != p);
                    assert(self.cells@[self.slot(q)] == before.cells@[before.slot(q)]);
                    assert(before@[q] == old(self)@[q]);
                }
                assert forall|k: int| 0 <= k < plan@.len() && k != i && before@.contains_key(plan@[k].1) implies self@.contains_key(plan@[k].1) && #[trigger] self@[plan@[k].1] == before@[plan@[k].1] by {
                    let q = plan@[k].1;
                    if k < i {
                        assert(plan@[k].1 != plan@[i as int].1);
                    } else {
                        assert(plan@[i as int].1 != plan@[k].1);
                    }
                    assert(self.cells@[self.slot(q)] == before.cells@[before.slot(q)]);
                }
                assert(before@.contains_key(p) ==> exists|c: &mut T| *c == before@[p] && *final(c) == self@[p] && #[trigger] call_ensures(reload0, (prior, p, c), ()));
            }
            i = i + 1;
        }
    }

    /// Calls the manager's `reload` on the cell of each planned new position.
    fn reload_planned_with<M: CellManage<(i32, i32), T>>(&mut self, plan: &Vec<((i32, i32), (i32, i32))>, src_bounds: Ghost<Bounds2D>, manage: &mut M)
        requires
            old(self).wf(),
            forall|k: int| 0 <= k < plan@.len() ==> {
                &&& old(self).in_bounds((#[trigger] plan@[k]).1)
                &&& !src_bounds@.contains_spec(plan@[k].1)
            },
            forall|i: int, j: int| 0 <= i < j < plan@.len() ==> (#[trigger] plan@[i]).1 != (#[trigger] plan@[j]).1,
            old(manage).ready(),
        ensures
            final(manage).ready(),
            manager_runs(*old(manage), final(self).reload_calls(old(self), plan@)),
            final(self).wf(),
            final(self).grid_size() == old(self).grid_size(),
            final(self).grid_offset() == old(self).grid_offset(),
            forall|p: (i32, i32)| #[trigger] old(self).in_bounds(p) ==> (final(self)@.contains_key(p) <==> old(self)@.contains_key(p)),
            forall|p: (i32, i32)| old(self).in_bounds(p) && src_bounds@.contains_spec(p) && old(self)@.contains_key(p) ==> #[trigger] final(self)@[p] == old(self)@[p],
    {
        let ghost mut states: Seq<M> = seq![*manage];
        let mut i: usize = 0;
        while i < plan.len()
            invariant
                self.wf(),
                self.grid_size() == old(self).grid_size(),
                self.grid_offset() == old(self).grid_offset(),
                forall|k: int| 0 <= k < plan@.len() ==> {
                    &&& old(self).in_bounds((#[trigger] plan@[k]).1)
                    &&& !src_bounds@.contains_spec(plan@[k].1)
                },
                forall|p: (i32, i32)| #[trigger] old(self).in_bounds(p) ==> (self@.contains_key(p) <==> old(self)@.contains_key(p)),
                forall|p: (i32, i32)| old(self).in_bounds(p) && src_bounds@.contains_spec(p) && old(self)@.contains_key(p) ==> #[trigger] self@[p] == old(self)@[p],
                forall|i: int, j: int| 0 <= i < j < plan@.len() ==> (#[trigger] plan@[i]).1 != (#[trigger] plan@[j]).1,
                0 <= i <= plan@.len(),
                forall|k: int| 0 <= k < plan@.len() && !(k < i) && old(self)@.contains_key(plan@[k].1) ==> #[trigger] self@[plan@[k].1] == old(self)@[plan@[k].1],
                manage.ready(),
                states.len() == i + 1,
                states[0] == *old(manage),
                states[i as int] == *manage,
                forall|k: int| 0 <= k < i ==> manager_step(states[k], #[trigger] self.reload_calls(old(self), plan@)[k], states[k + 1]),
            decreases plan@.len() - i,
        {
            let (prior, p) = plan[i];
            let index = self.offset_index(p).unwrap();
            let ghost before = *self;
            let ghost m0 = *manage;
            proof {
                assert forall|q: (i32, i32)| #[trigger] old(self).in_bounds(q) && q != p implies slot2(self.size, self.wrap_offset, self.grid_offset, q) != index
                    && 0 <= slot2(self.size, self.wrap_offset, self.grid_offset, q) < self.cells@.len() by {
                    self.lemma_slot(q, p);
                }
            }
            match &mut self.cells[index] {
                Some(cell) => manage.reload(prior, p, cell),
                None => {},
            }
            proof {
                assert forall|q: (i32, i32)| #[trigger] old(self).in_bounds(q) implies (self@.contains_key(q) <==> before@.contains_key(q)) by {
                    if q != p {
                        assert(self.cells@[self.slot(q)] == before.cells@[before.slot(q)]);
                    }
                }
                assert forall|q: (i32, i32)| old(self).in_bounds(q) && src_bounds@.contains_spec(q) && old(self)@.contains_key(q) implies #[trigger] self@[q] == old(self)@[q] by {
                    assert(q != p);
                    assert(self.cells@[self.slot(q)] == before.cells@[before.slot(q)]);
                    assert(before@[q] == old(self)@[q]);
                }
                assert forall|k: int| 0 <= k < plan@.len() && k != i && before@.contains_key(plan@[k].1) implies self@.contains_key(plan@[k].1) && #[trigger] self@[plan@[k].1] == before@[plan@[k].1] by {
                    let q = plan@[k].1;
                    if k < i {
                        assert(plan@[k].1 != plan@[i as int].1);
                    } else {
                        assert(plan@[i as int].1 != plan@[k].1);
                    }
                    assert(self.cells@[self.slot(q)] == before.cells@[before.slot(q)]);
                }
                assert(before@.contains_key(p) ==> m0.reloads(prior, p, before@[p], self@[p], *manage));
                assert(!before@.contains_key(p) ==> *manage == m0);
                let ghost prev_states = states;
                states = states.push(*manage);
                assert forall|k: int| 0 <= k < i + 1 implies manager_step(states[k], #[trigger] self.reload_calls(old(self), plan@)[k], states[k + 1]) by {
                    assert(old(self).in_bounds(plan@[k].1));
                    if k < i {
                        assert(manager_step(prev_states[k], before.reload_calls(old(self), plan@)[k], prev_states[k + 1]));
                        if old(self)@.contains_key(plan@[k].1) {
                            assert(before@.contains_key(plan@[k].1));
                            assert(self@[plan@[k].1] == before@[plan@[k].1]);
                        }
                        assert(self.reload_calls(old(self), plan@)[k] == before.reload_calls(old(self), plan@)[k]);
                    } else {
                        assert(plan@[k] == (prior, p));
                        if old(self)@.contains_key(p) {
                            assert(before@[p] == old(self)@[p]);
                        }
                    }
                }
            }
            i = i + 1;
        }
        proof {
            lemma_manager_runs(*old(manage), self.reload_calls(old(self), plan@), states);
        }
    }

    /// Calls the manager's fallible `try_reload` on the cell of each planned new position, stopping at
    /// the first error.
    fn try_reload_planned_with<E, M: TryCellManage<(i32, i32), T, E>>(&mut self, plan: &Vec<((i32, i32), (i32, i32))>, src_bounds: Ghost<Bounds2D>, manage: &mut M) -> (r: Result<(), E>)
        requires
            old(self).wf(),
            forall|k: int| 0 <= k < plan@.len() ==> {
                &&& old(self).in_bounds((#[trigger] plan@[k]).1)
                &&& !src_bounds@.contains_spec(plan@[k].1)
            },
            forall|i: int, j: int| 0 <= i < j < plan@.len() ==> (#[trigger] plan@[i]).1 != (#[trigger] plan@[j]).1,
            old(manage).try_ready(),
        ensures
            final(manage).try_ready(),
            final(self).wf(),
            final(self).grid_size() == old(self).grid_size(),
            final(self).grid_offset() == old(self).grid_offset(),
            forall|p: (i32, i32)| #[trigger] old(self).in_bounds(p) ==> (final(self)@.contains_key(p) <==> old(self)@.contains_key(p)),
            forall|p: (i32, i32)| old(self).in_bounds(p) && src_bounds@.contains_spec(p) && old(self)@.contains_key(p) ==> #[trigger] final(self)@[p] == old(self)@[p],
            plan@.len() == 0 ==> r is Ok,
            r is Ok ==> try_manager_runs::<(i32, i32), T, E, M>(*old(manage), final(self).reload_calls(old(self), plan@)),
            r is Err ==> exists|k: int|
                0 <= k < plan@.len() && old(self)@.contains_key(plan@[k].1) && #[trigger] try_manager_stops::<(i32, i32), T, E, M>(
                    *old(manage),
                    final(self).reload_calls(old(self), plan@).take(k),
                    ManagerCall::Reload(plan@[k].0, plan@[k].1, old(self)@[plan@[k].1], final(self)@[plan@[k].1]),
                    r->Err_0,
                ) && forall|j: int| k < j < plan@.len() && old(self)@.contains_key(plan@[j].1) ==> #[trigger] final(self)@[plan@[j].1] == old(self)@[plan@[j].1],
    {
        let ghost mut states: Seq<M> = seq![*manage];
        let mut i: usize = 0;
        while i < plan.len()
            invariant
                self.wf(),
                self.grid_size() == old(self).grid_size(),
                self.grid_offset() == old(self).grid_offset(),
                forall|k: int| 0 <= k < plan@.len() ==> {
                    &&& old(self).in_bounds((#[trigger] plan@[k]).1)
                    &&& !src_bounds@.contains_spec(plan@[k].1)
                },
                forall|p: (i32, i32)| #[trigger] old(self).in_bounds(p) ==> (self@.contains_key(p) <==> old(self)@.contains_key(p)),
                forall|p: (i32, i32)| old(self).in_bounds(p) && src_bounds@.contains_spec(p) && old(self)@.contains_key(p) ==> #[trigger] self@[p] == old(self)@[p],
                forall|i: int, j: int| 0 <= i < j < plan@.len() ==> (#[trigger] plan@[i]).1 != (#[trigger] plan@[j]).1,
                0 <= i <= plan@.len(),
                forall|k: int| 0 <= k < plan@.len() && !(k < i) && old(self)@.contains_key(plan@[k].1) ==> #[trigger] self@[plan@[k].1] == old(self)@[plan@[k].1],
                manage.try_ready(),
                states.len() == i + 1,
                states[0] == *old(manage),
                states[i as int] == *manage,
                forall|k: int| 0 <= k < i ==> try_manager_step::<(i32, i32), T, E, M>(states[k], #[trigger] self.reload_calls(old(self), plan@)[k], states[k + 1]),
            decreases plan@.len() - i,
        {
            let (prior, p) = plan[i];
            let index = self.offset_index(p).unwrap();
            let ghost before = *self;
            let ghost m0 = *manage;
            proof {
                assert forall|q: (i32, i32)| #[trigger] old(self).in_bounds(q) && q != p implies slot2(self.size, self.wrap_offset, self.grid_offset, q) != index
                    && 0 <= slot2(self.size, self.wrap_offset, self.grid_offset, q) < self.cells@.len() by {
                    self.lemma_slot(q, p);
                }
            }
            let res = match &mut self.cells[index] {
                Some(cell) => manage.try_reload(prior, p, cell),
                None => Ok(()),
            };
            proof {
                assert forall|q: (i32, i32)| #[trigger] old(self).in_bounds(q) implies (self@.contains_key(q) <==> before@.contains_key(q)) by {
                    if q != p {
                        assert(self.cells@[self.slot(q)] == before.cells@[before.slot(q)]);
                    }
                }
                assert forall|q: (i32, i32)| old(self).in_bounds(q) && src_bounds@.contains_spec(q) && old(self)@.contains_key(q) implies #[trigger] self@[q] == old(self)@[q] by {
                    assert(q != p);
                    assert(self.cells@[self.slot(q)] == before.cells@[before.slot(q)]);
                    assert(before@[q] == old(self)@[q]);
                }
                assert forall|k: int| 0 <= k < plan@.len() && k != i && before@.contains_key(plan@[k].1) implies self@.contains_key(plan@[k].1) && #[trigger] self@[plan@[k].1] == before@[plan@[k].1] by {
                    let q = plan@[k].1;
                    if k < i {
                        assert(plan@[k].1 != plan@[i as int].1);
                    } else {
                        assert(plan@[i as int].1 != plan@[k].1);
                    }
                    assert(self.cells@[self.slot(q)] == before.cells@[before.slot(q)]);
                }
                assert(before@.contains_key(p) ==> m0.try_reloads(prior, p, before@[p], self@[p], res, *manage));
                assert(!before@.contains_key(p) ==> *manage == m0 && res is Ok);
            }
            match res {
                Ok(()) => {
                    proof {
                        let ghost prev_states = states;
                        states = states.push(*manage);
                        assert forall|k: int| 0 <= k < i + 1 implies try_manager_step::<(i32, i32), T, E, M>(states[k], #[trigger] self.reload_calls(old(self), plan@)[k], states[k + 1]) by {
                            assert(old(self).in_bounds(plan@[k].1));
                            if k < i {
                                assert(try_manager_step::<(i32, i32), T, E, M>(prev_states[k], before.reload_calls(old(self), plan@)[k], prev_states[k + 1]));
                                if old(self)@.contains_key(plan@[k].1) {
                                    assert(before@.contains_key(plan@[k].1));
                                    assert(self@[plan@[k].1] == before@[plan@[k].1]);
                                }
                                assert(self.reload_calls(old(self), plan@)[k] == before.reload_calls(old(self), plan@)[k]);
                            } else {
                                assert(plan@[k] == (prior, p));
                                if old(self)@.contains_key(p) {
                                    assert(before@[p] == old(self)@[p]);
                                    assert(m0.try_reloads(prior, p, old(self)@[p], self@[p], res, *manage) && res is Ok);
                                    lemma_try_reload_step::<(i32, i32), T, E, M>(m0, prior, p, old(self)@[p], self@[p], res, *manage);
                                    assert(try_manager_step::<(i32, i32), T, E, M>(m0, Some(ManagerCall::Reload(prior, p, old(self)@[p], self@[p])), *manage));
                                    assert(self.reload_calls(old(self), plan@)[k] == Some(ManagerCall::Reload(prior, p, old(self)@[p], self@[p])));
                                }
                            }
                        }
                    }
                },
                Err(e) => {
                    let r: Result<(), E> = Err(e);
                    proof {
                        assert(before@.contains_key(p));
                        let calls = self.reload_calls(old(self), plan@).take(i as int);
                        assert forall|k: int| 0 <= k < calls.len() implies try_manager_step::<(i32, i32), T, E, M>(states[k], #[trigger] calls[k], states[k + 1]) by {
                            assert(calls[k] == self.reload_calls(old(self), plan@)[k]);
                            assert(old(self).in_bounds(plan@[k].1));
                            assert(try_manager_step::<(i32, i32), T, E, M>(states[k], before.reload_calls(old(self), plan@)[k], states[k + 1]));
                            if old(self)@.contains_key(plan@[k].1) {
                                assert(before@.contains_key(plan@[k].1));
                                assert(self@[plan@[k].1] == before@[plan@[k].1]);
                            }
                            assert(self.reload_calls(old(self), plan@)[k] == before.reload_calls(old(self), plan@)[k]);
                        }
                        assert(m0.try_reloads(prior, p, before@[p], self@[p], Err(r->Err_0), *manage));
                        assert(plan@[i as int] == (prior, p));
                        assert(before@[p] == old(self)@[p]);
                        lemma_try_manager_stops::<(i32, i32), T, E, M>(*old(manage), calls, states, ManagerCall::Reload(prior, p, before@[p], self@[p]), r->Err_0, *manage);
                        assert forall|j: int| i < j < plan@.len() && old(self)@.contains_key(plan@[j].1) implies #[trigger] self@[plan@[j].1] == old(self)@[plan@[j].1] by {
                            assert(before@.contains_key(plan@[j].1));
                        }
                    }
                    return r;
                },
            }
            i = i + 1;
        }
        proof {
            lemma_try_manager_runs::<(i32, i32), T, E, M>(*old(manage), self.reload_calls(old(self), plan@), states);
        }
        Ok(())
    }

    /// Resize and reposition the grid simultaneously.
    ///
    /// When only the position changes, this is [RollGrid2D::reposition] with the manager's
    /// `reload`. Otherwise the cells that leave the grid are handed to `unload` in the order
    /// given by [unload_plan2], then the new grid is filled row by row, moving the cells that
    /// stay and calling `load` for the positions that enter.
    /// The calls made on `manage` are those [RollGrid2D::managed_from] describes.
    /// See [CellManage].
    pub fn resize_and_reposition<M: CellManage<(i32, i32), T>>(&mut self, width: u32, height: u32, new_position: (i32, i32), manage: M)
        requires
            old(self).wf(),
            width * height > 0,
            width * height <= usize::MAX,
            new_position.0 + width <= i32::MAX,
            new_position.1 + height <= i32::MAX,
            manage.ready(),
        ensures
            final(self).wf(),
            final(self).grid_size() == (width, height),
            final(self).grid_offset() == new_position,
            forall|p: (i32, i32)| old(self).in_bounds(p) && final(self).in_bounds(p) ==> (#[trigger] final(self)@.contains_key(p) <==> old(self)@.contains_key(p)),
            forall|p: (i32, i32)| old(self).in_bounds(p) && final(self).in_bounds(p) && old(self)@.contains_key(p) ==> #[trigger] final(self)@[p] == old(self)@[p],
            old(self).full() ==> final(self).full(),
            final(self).managed_from(old(self), manage),
    {
        let ghost manage0 = manage;
        let mut manage = manage;
        assert(width > 0 && height > 0) by (nonlinear_arith)
            requires
                width * height > 0,
        ;
        if width == self.size.0 && height == self.size.1 {
            let ghost start = *self;
            if self.grid_offset.0 != new_position.0 || self.grid_offset.1 != new_position.1 {
                let b = self.bounds();
                let src_bounds = Ghost(b);
                let plan = self.begin_reposition(new_position);
                proof {
                    start.lemma_moved(self);
                }
                let ghost mid = *self;
                self.reload_planned_with(&plan, src_bounds, &mut manage);
                proof {
                    let size = start.grid_size();
                    let src = start.grid_offset();
                    assert forall|k: int| 0 <= k < plan@.len() implies #[trigger] self.move_calls(&start, plan@)[k] == self.reload_calls(&mid, plan@)[k] by {
                        let p = plan@[k].1;
                        assert(mid.in_bounds(p));
                        assert(mid@.contains_key(p) <==> start@.contains_key(prior2(size, src, new_position, p)));
                        if mid@.contains_key(p) {
                            assert(mid@[p] == start@[prior2(size, src, new_position, p)]);
                        }
                    }
                    assert(self.move_calls(&start, plan@) =~= self.reload_calls(&mid, plan@));
                    assert(is_reload_plan2(size, src, new_position, plan@));
                }
            } else {
                proof {
                    let plan = Seq::<((i32, i32), (i32, i32))>::empty();
                    assert(is_reload_plan2(start.grid_size(), start.grid_offset(), new_position, plan));
                    lemma_manager_runs(manage0, self.move_calls(&start, plan), seq![manage0]);
                }
            }
            return;
        }
        let size = (width, height);
        let unload = unload_plan2(self.size, self.grid_offset, size, new_position);
        let ghost start = *self;
        let ghost mut states: Seq<M> = seq![manage];
        let mut i: usize = 0;
        while i < unload.len()
            invariant
                self.wf(),
                self.size == start.size,
                self.wrap_offset == start.wrap_offset,
                self.grid_offset == start.grid_offset,
                forall|k: int| 0 <= k < unload@.len() ==> start.in_bounds(#[trigger] unload@[k]) && !in_grid2(size, new_position, unload@[k]),
                forall|a: int, b: int| 0 <= a < b < unload@.len() ==> #[trigger] unload@[a] != #[trigger] unload@[b],
                forall|q: (i32, i32)| #[trigger] start.in_bounds(q) && in_grid2(size, new_position, q) ==> self.cells@[self.slot(q)] == start.cells@[start.slot(q)],
                forall|k: int| i <= k < unload@.len() ==> self.cells@[self.slot(#[trigger] unload@[k])] == start.cells@[start.slot(unload@[k])],
                0 <= i <= unload@.len(),
                manage.ready(),
                states.len() == i + 1,
                states[0] == manage0,
                states[i as int] == manage,
                forall|k: int| 0 <= k < i ==> manager_step(states[k], #[trigger] Self::unload_calls(&start, unload@)[k], states[k + 1]),
            decreases unload@.len() - i,
        {
            let p = unload[i];
            let index = self.offset_index(p).unwrap();
            proof {
                assert forall|q: (i32, i32)| #[trigger] start.in_bounds(q) && q != p implies slot2(self.size, self.wrap_offset, self.grid_offset, q) != index
                    && 0 <= slot2(self.size, self.wrap_offset, self.grid_offset, q) < self.cells@.len() by {
                    self.lemma_slot(q, p);
                }
                assert(self.cells@[index as int] == start.cells@[start.slot(p)]);
            }
            let ghost m0 = manage;
            let taken = self.cells[index].take();
            match taken {
                Some(v) => manage.unload(p, v),
                None => {},
            }
            proof {
                let prev_states = states;
                states = states.push(manage);
                assert forall|k: int| 0 <= k < i + 1 implies manager_step(states[k], #[trigger] Self::unload_calls(&start, unload@)[k], states[k + 1]) by {
                    if k < i {
                        assert(manager_step(prev_states[k], Self::unload_calls(&start, unload@)[k], prev_states[k + 1]));
                    } else {
                        assert(unload@[k] == p);
                        assert(start.in_bounds(p));
                    }
                }
                assert forall|k: int| i + 1 <= k < unload@.len() implies self.cells@[self.slot(#[trigger] unload@[k])] == start.cells@[start.slot(unload@[k])] by {
                    assert(unload@[i as int] != unload@[k]);
                }
            }
            i = i + 1;
        }
        let ghost u = unload@.len() as int;
        let mut cells: Vec<Option<T>> = Vec::new();
        let (ox, oy) = new_position;
        let x_end = (ox as i64 + width as i64) as i32;
        let y_end = (oy as i64 + height as i64) as i32;
        let mut y = oy;
        while y < y_end
            invariant
                self.wf(),
                self.size == start.size,
                self.wrap_offset == start.wrap_offset,
                self.grid_offset == start.grid_offset,
                size == (width, height),
                width > 0,
                x_end == ox + width,
                y_end == oy + height,
                new_position == (ox, oy),
                new_position.0 + width <= i32::MAX,
                new_position.1 + height <= i32::MAX,
                oy <= y <= y_end,
                cells@.len() == (y - oy) * width,
                forall|q: (i32, i32)| #[trigger] start.in_bounds(q) && in_grid2(size, new_position, q) && !(q.1 < y) ==> self.cells@[self.slot(q)] == start.cells@[start.slot(q)],
                forall|q: (i32, i32)| #[trigger] in_grid2(size, new_position, q) && q.1 < y ==> {
                    &&& start.in_bounds(q) ==> cells@[index2(size, new_position, q)] == start.cells@[start.slot(q)]
                    &&& !start.in_bounds(q) ==> cells@[index2(size, new_position, q)] is Some
                },
                manage.ready(),
                u == unload@.len(),
                states.len() == u + cells@.len() + 1,
                states[0] == manage0,
                states[u + cells@.len()] == manage,
                forall|k: int| 0 <= k < u ==> manager_step(states[k], #[trigger] Self::unload_calls(&start, unload@)[k], states[k + 1]),
                forall|j: int| 0 <= j < cells@.len() ==> manager_step(states[u + j], #[trigger] fill_calls2(start.grid_size(), start.grid_offset(), size, new_position, cells@)[j], states[u + j + 1]),
            decreases y_end - y,
        {
            let mut x = ox;
            while x < x_end
                invariant
                    self.wf(),
                    self.size == start.size,
                    self.wrap_offset == start.wrap_offset,
                    self.grid_offset == start.grid_offset,
                    size == (width, height),
                    x_end == ox + width,
                    y_end == oy + height,
                    new_position == (ox, oy),
                    new_position.0 + width <= i32::MAX,
                    new_position.1 + height <= i32::MAX,
                    oy <= y < y_end,
                    ox <= x <= x_end,
                    cells@.len() == (y - oy) * width + (x - ox),
                    forall|q: (i32, i32)| #[trigger] start.in_bounds(q) && in_grid2(size, new_position, q) && !(q.1 < y || (q.1 == y && q.0 < x)) ==> self.cells@[self.slot(q)] == start.cells@[start.slot(q)],
                    forall|q: (i32, i32)| #[trigger] in_grid2(size, new_position, q) && (q.1 < y || (q.1 == y && q.0 < x)) ==> {
                        &&& start.in_bounds(q) ==> cells@[index2(size, new_position, q)] == start.cells@[start.slot(q)]
                        &&& !start.in_bounds(q) ==> cells@[index2(size, new_position, q)] is Some
                    },
                    manage.ready(),
                    u == unload@.len(),
                    states.len() == u + cells@.len() + 1,
                    states[0] == manage0,
                    states[u + cells@.len()] == manage,
                    forall|k: int| 0 <= k < u ==> manager_step(states[k], #[trigger] Self::unload_calls(&start, unload@)[k], states[k + 1]),
                    forall|j: int| 0 <= j < cells@.len() ==> manager_step(states[u + j], #[trigger] fill_calls2(start.grid_size(), start.grid_offset(), size, new_position, cells@)[j], states[u + j + 1]),
                decreases x_end - x,
            {
                let p = (x, y);
                let ghost before = cells@;
                let ghost m0 = manage;
                proof {
                    lemma_index2(size, new_position, p, p);
                    lemma_position2(size, new_position, before.len() as int, p);
                    assert(index2(size, new_position, p) == before.len());
                }
                match self.offset_index(p) {
                    Some(index) => {
                        proof {
                            assert forall|q: (i32, i32)| #[trigger] start.in_bounds(q) && q != p implies slot2(self.size, self.wrap_offset, self.grid_offset, q) != index
                                && 0 <= slot2(self.size, self.wrap_offset, self.grid_offset, q) < self.cells@.len() by {
                                self.lemma_slot(q, p);
                            }
                        }
                        let v = self.cells[index].take();
                        cells.push(v);
                    },
                    None => {
                        let v = manage.load(p);
                        cells.push(Some(v));
                    },
                }
                proof {
                    assert forall|q: (i32, i32)| #[trigger] in_grid2(size, new_position, q) && (q.1 < y || (q.1 == y && q.0 < x + 1)) implies {
                        &&& start.in_bounds(q) ==> cells@[index2(size, new_position, q)] == start.cells@[start.slot(q)]
                        &&& !start.in_bounds(q) ==> cells@[index2(size, new_position, q)] is Some
                    } by {
                        lemma_index2(size, new_position, q, p);
                        if q != p {
                            assert(cells@[index2(size, new_position, q)] == before[index2(size, new_position, q)]);
                        }
                    }
                    let prev_states = states;
                    states = states.push(manage);
                    assert forall|k: int| 0 <= k < u implies manager_step(states[k], #[trigger] Self::unload_calls(&start, unload@)[k], states[k + 1]) by {
                        assert(manager_step(prev_states[k], Self::unload_calls(&start, unload@)[k], prev_states[k + 1]));
                    }
                    assert forall|j: int| 0 <= j < cells@.len() implies manager_step(states[u + j], #[trigger] fill_calls2(start.grid_size(), start.grid_offset(), size, new_position, cells@)[j], states[u + j + 1]) by {
                        if j < before.len() {
                            assert(fill_calls2(start.grid_size(), start.grid_offset(), size, new_position, cells@)[j] == fill_calls2(start.grid_size(), start.grid_offset(), size, new_position, before)[j]);
                            assert(manager_step(prev_states[u + j], fill_calls2(start.grid_size(), start.grid_offset(), size, new_position, before)[j], prev_states[u + j + 1]));
                        } else {
                            assert(j == before.len());
                            assert(position2(size, new_position, j) == p);
                        }
                    }
                }
                x = x + 1;
            }
            assert((y - oy) * width + width == (y + 1 - oy) * width) by (nonlinear_arith);
            y = y + 1;
        }
        assert((y_end - oy) * width == width * height) by (nonlinear_arith)
            requires
                y_end - oy == height,
        ;
        let ghost filled = cells@;
        self.cells = cells;
        self.size = size;
        self.grid_offset = new_position;
        self.wrap_offset = (0, 0);
        proof {
            assert forall|q: (i32, i32)| #[trigger] self.in_bounds(q) implies self.slot(q) == index2(size, new_position, q) && 0 <= self.slot(q) < self.cells@.len() by {
                lemma_index2(size, new_position, q, q);
            }
            assert forall|j: int| 0 <= j < filled.len() implies #[trigger] self.load_calls(&start)[j] == fill_calls2(start.grid_size(), start.grid_offset(), size, new_position, filled)[j] by {
                let q = position2(size, new_position, j);
                lemma_position2(size, new_position, j, q);
                assert(self.in_bounds(q));
                assert(self.slot(q) == j);
            }
            assert(self.load_calls(&start) =~= fill_calls2(start.grid_size(), start.grid_offset(), size, new_position, filled));
            let calls = Self::unload_calls(&start, unload@) + self.load_calls(&start);
            assert forall|k: int| 0 <= k < calls.len() implies manager_step(states[k], #[trigger] calls[k], states[k + 1]) by {
                if k < u {
                    assert(calls[k] == Self::unload_calls(&start, unload@)[k]);
                } else {
                    assert(calls[k] == fill_calls2(start.grid_size(), start.grid_offset(), size, new_position, filled)[k - u]);
                    assert(manager_step(states[u + (k - u)], fill_calls2(start.grid_size(), start.grid_offset(), size, new_position, filled)[k - u], states[u + (k - u) + 1]));
                }
            }
            lemma_manager_runs(manage0, calls, states);
            assert(is_unload_plan2(start.grid_size(), start.grid_offset(), size, new_position, unload@));
        }
    }

    /// Try to resize and reposition the grid using a fallible manager, stopping at the
    /// first error and returning it.
    ///
    /// The steps are those of [RollGrid2D::resize_and_reposition]. When an error stops a
    /// move, the offset has moved and the cells not yet reloaded keep the values of the
    /// cells they took over. When an error stops a resize, the grid keeps its size and
    /// offset; the cells handed to `unload`, the one whose unload failed included, and
    /// the cells already moved into the new grid, are left empty.
    /// On success the calls made on `manage` are those [RollGrid2D::try_managed_from] describes;
    /// on an error, the calls made and the state left are those [RollGrid2D::try_stopped_from]
    /// describes.
    /// See [TryCellManage].
#[verifier::loop_isolation(false)]
        pub fn try_resize_and_reposition<E, M: TryCellManage<(i32, i32), T, E>>(&mut self, width: u32, height: u32, new_position: (i32, i32), manage: M) -> (r: Result<(), E>)
        requires
            old(self).wf(),
            width * height > 0,
            width * height <= usize::MAX,
            new_position.0 + width <= i32::MAX,
            new_position.1 + height <= i32::MAX,
            manage.try_ready(),
        ensures
            final(self).wf(),
            r is Ok ==> {
                &&& final(self).grid_size() == (width, height)
                &&& final(self).grid_offset() == new_position
                &&& forall|p: (i32, i32)| old(self).in_bounds(p) && final(self).in_bounds(p) ==> (#[trigger] final(self)@.contains_key(p) <==> old(self)@.contains_key(p))
                &&& forall|p: (i32, i32)| old(self).in_bounds(p) && final(self).in_bounds(p) && old(self)@.contains_key(p) ==> #[trigger] final(self)@[p] == old(self)@[p]
                &&& old(self).full() ==> final(self).full()
            },
            r is Err ==> final(self).resize_stopped(old(self), (width, height), new_position),
            (old(self).grid_size() == (width, height) && old(self).grid_offset() == new_position) ==> r is Ok,
            r is Ok ==> final(self).try_managed_from(old(self), manage),
            r is Err ==> final(self).try_stopped_from(old(self), (width, height), new_position, manage, r->Err_0),
    {
        let ghost manage0 = manage;
        let mut manage = manage;
        assert(width > 0 && height > 0) by (nonlinear_arith)
            requires
                width * height > 0,
        ;
        if width == self.size.0 && height == self.size.1 {
            let ghost start = *self;
            if self.grid_offset.0 != new_position.0 || self.grid_offset.1 != new_position.1 {
                let b = self.bounds();
                let src_bounds = Ghost(b);
                let plan = self.begin_reposition(new_position);
                proof {
                    start.lemma_moved(self);
                }
                let ghost mid = *self;
                let r = self.try_reload_planned_with(&plan, src_bounds, &mut manage);
                proof {
                    let size = start.grid_size();
                    let src = start.grid_offset();
                    assert forall|k: int| 0 <= k < plan@.len() implies #[trigger] self.move_calls(&start, plan@)[k] == self.reload_calls(&mid, plan@)[k] by {
                        let p = plan@[k].1;
                        assert(mid.in_bounds(p));
                        assert(mid@.contains_key(p) <==> start@.contains_key(prior2(size, src, new_position, p)));
                        if mid@.contains_key(p) {
                            assert(mid@[p] == start@[prior2(size, src, new_position, p)]);
                        }
                    }
                    assert(self.move_calls(&start, plan@) =~= self.reload_calls(&mid, plan@));
                    assert(is_reload_plan2(size, src, new_position, plan@));
                    if r is Err {
                        let e = r->Err_0;
                        let k = choose|k: int|
                            0 <= k < plan@.len() && mid@.contains_key(plan@[k].1) && #[trigger] try_manager_stops::<(i32, i32), T, E, M>(
                                manage0,
                                self.reload_calls(&mid, plan@).take(k),
                                ManagerCall::Reload(plan@[k].0, plan@[k].1, mid@[plan@[k].1], self@[plan@[k].1]),
                                e,
                            ) && forall|j: int| k < j < plan@.len() && mid@.contains_key(plan@[j].1) ==> #[trigger] self@[plan@[j].1] == mid@[plan@[j].1];
                        assert forall|j: int| 0 <= j < plan@.len() implies (self@.contains_key((#[trigger] plan@[j]).1) <==> start@.contains_key(plan@[j].0)) by {
                            assert(mid.in_bounds(plan@[j].1));
                        }
                        assert(mid.in_bounds(plan@[k].1));
                        assert(mid@[plan@[k].1] == start@[plan@[k].0]);
                        assert(self.move_calls(&start, plan@).take(k) == self.reload_calls(&mid, plan@).take(k));
                        assert forall|j: int| k < j < plan@.len() && start@.contains_key(plan@[j].0) implies #[trigger] self@[plan@[j].1] == start@[plan@[j].0] by {
                            assert(mid.in_bounds(plan@[j].1));
                            assert(mid@[plan@[j].1] == start@[plan@[j].0]);
                        }
                        assert(self.move_stopped(&start, plan@, manage0, e));
                    }
                }
                return r;
            }
            proof {
                let plan = Seq::<((i32, i32), (i32, i32))>::empty();
                assert(is_reload_plan2(start.grid_size(), start.grid_offset(), new_position, plan));
                lemma_try_manager_runs::<(i32, i32), T, E, M>(manage0, self.move_calls(&start, plan), seq![manage0]);
            }
            return Ok(());
        }
        let size = (width, height);
        let unload = unload_plan2(self.size, self.grid_offset, size, new_position);
        let ghost start = *self;
        let ghost mut states: Seq<M> = seq![manage];
        let mut i: usize = 0;
        while i < unload.len()
            invariant
                self.wf(),
                self.size == start.size,
                self.wrap_offset == start.wrap_offset,
                self.grid_offset == start.grid_offset,
                forall|k: int| 0 <= k < unload@.len() ==> start.in_bounds(#[trigger] unload@[k]) && !in_grid2(size, new_position, unload@[k]),
                forall|q: (i32, i32)| #[trigger] start.in_bounds(q) && in_grid2(size, new_position, q) ==> self.cells@[self.slot(q)] == start.cells@[start.slot(q)],
                forall|q: (i32, i32)| #[trigger] start.in_bounds(q) ==> self.cells@[self.slot(q)] == start.cells@[start.slot(q)] || self.cells@[self.slot(q)] is None,
                !(width == start.size.0 && height == start.size.1),
                *old(self) == start,
                manage.try_ready(),
                forall|a: int, b: int| 0 <= a < b < unload@.len() ==> #[trigger] unload@[a] != #[trigger] unload@[b],
                forall|k: int| i <= k < unload@.len() ==> self.cells@[self.slot(#[trigger] unload@[k])] == start.cells@[start.slot(unload@[k])],
                forall|k: int| 0 <= k < i ==> self.cells@[self.slot(#[trigger] unload@[k])] is None,
                0 <= i <= unload@.len(),
                states.len() == i + 1,
                states[0] == manage0,
                states[i as int] == manage,
                forall|k: int| 0 <= k < i ==> try_manager_step::<(i32, i32), T, E, M>(states[k], #[trigger] Self::unload_calls(&start, unload@)[k], states[k + 1]),
            decreases unload@.len() - i,
        {
            let p = unload[i];
            let index = self.offset_index(p).unwrap();
            proof {
                assert forall|q: (i32, i32)| #[trigger] start.in_bounds(q) && q != p implies slot2(self.size, self.wrap_offset, self.grid_offset, q) != index
                    && 0 <= slot2(self.size, self.wrap_offset, self.grid_offset, q) < self.cells@.len() by {
                    self.lemma_slot(q, p);
                }
                assert(self.cells@[index as int] == start.cells@[start.slot(p)]);
            }
            let ghost m0 = manage;
            let taken = self.cells[index].take();
            match taken {
                Some(v) => {
                    let ghost v0 = v;
                    let res = manage.try_unload(p, v);
                    match res {
                        Ok(()) => {
                            proof {
                                lemma_try_unload_step::<(i32, i32), T, E, M>(m0, p, v0, res, manage);
                            }
                        },
                        Err(e) => {
                            let r: Result<(), E> = Err(e);
                            proof {
                                assert forall|q: (i32, i32)| #[trigger] self@.contains_key(q) implies start@.contains_key(q) && self@[q] == start@[q] by {
                                    assert(start.in_bounds(q));
                                }
                                let calls = Self::unload_calls(&start, unload@).take(i as int);
                                assert forall|k: int| 0 <= k < calls.len() implies try_manager_step::<(i32, i32), T, E, M>(states[k], #[trigger] calls[k], states[k + 1]) by {
                                    assert(calls[k] == Self::unload_calls(&start, unload@)[k]);
                                }
                                assert(m0.try_unloads(p, v0, Err(r->Err_0), manage));
                                lemma_try_manager_stops::<(i32, i32), T, E, M>(manage0, calls, states, ManagerCall::Unload(p, v0), r->Err_0, manage);
                                assert(start@.contains_key(unload@[i as int]) && start@[unload@[i as int]] == v0);
                                assert forall|q: (i32, i32)| #[trigger] self@.contains_key(q) <==> (start@.contains_key(q) && !unload@.take(i + 1).contains(q)) by {
                                    if start.in_bounds(q) {
                                        if unload@.take(i + 1).contains(q) {
                                            let k = choose|k: int| 0 <= k < i + 1 && #[trigger] unload@.take(i + 1)[k] == q;
                                            assert(unload@[k] == q);
                                        } else if !in_grid2(size, new_position, q) {
                                            assert(unload@.contains(q));
                                            let k = choose|k: int| 0 <= k < unload@.len() && unload@[k] == q;
                                            if k <= i {
                                                assert(unload@.take(i + 1)[k] == q);
                                            }
                                            assert(self.cells@[self.slot(unload@[k])] == start.cells@[start.slot(unload@[k])]);
                                        }
                                    }
                                }
                                assert(self.unload_stopped(&start, unload@, manage0, r->Err_0));
                                assert(is_unload_plan2(start.grid_size(), start.grid_offset(), size, new_position, unload@));
                            }
                            return r;
                        },
                    }
                },
                None => {},
            }
            proof {
                let prev_states = states;
                states = states.push(manage);
                assert forall|k: int| 0 <= k < i + 1 implies try_manager_step::<(i32, i32), T, E, M>(states[k], #[trigger] Self::unload_calls(&start, unload@)[k], states[k + 1]) by {
                    if k < i {
                        assert(try_manager_step::<(i32, i32), T, E, M>(prev_states[k], Self::unload_calls(&start, unload@)[k], prev_states[k + 1]));
                    } else {
                        assert(unload@[k] == p);
                        assert(start.in_bounds(p));
                    }
                }
                assert forall|k: int| i + 1 <= k < unload@.len() implies self.cells@[self.slot(#[trigger] unload@[k])] == start.cells@[start.slot(unload@[k])] by {
                    assert(unload@[i as int] != unload@[k]);
                    self.lemma_slot(unload@[k], p);
                }
                assert forall|k: int| 0 <= k < i + 1 implies self.cells@[self.slot(#[trigger] unload@[k])] is None by {
                    if k < i {
                        assert(unload@[k] != unload@[i as int]);
                        self.lemma_slot(unload@[k], p);
                    }
                }
            }
            i = i + 1;
        }
        let ghost u = unload@.len() as int;
        let mut cells: Vec<Option<T>> = Vec::new();
        let (ox, oy) = new_position;
        let x_end = (ox as i64 + width as i64) as i32;
        let y_end = (oy as i64 + height as i64) as i32;
        let mut y = oy;
        while y < y_end
            invariant
                self.wf(),
                self.size == start.size,
                self.wrap_offset == start.wrap_offset,
                self.grid_offset == start.grid_offset,
                size == (width, height),
                width > 0,
                x_end == ox + width,
                y_end == oy + height,
                new_position == (ox, oy),
                oy <= y <= y_end,
                cells@.len() == (y - oy) * width,
                forall|q: (i32, i32)| #[trigger] start.in_bounds(q) && in_grid2(size, new_position, q) && !(q.1 < y) ==> self.cells@[self.slot(q)] == start.cells@[start.slot(q)],
                forall|q: (i32, i32)| #[trigger] start.in_bounds(q) && in_grid2(size, new_position, q) && q.1 < y ==> self.cells@[self.slot(q)] is None,
                forall|k: int| 0 <= k < u ==> self.cells@[self.slot(#[trigger] unload@[k])] is None,
                forall|k: int| 0 <= k < unload@.len() ==> start.in_bounds(#[trigger] unload@[k]) && !in_grid2(size, new_position, unload@[k]),
                forall|q: (i32, i32)| #[trigger] start.in_bounds(q) ==> self.cells@[self.slot(q)] == start.cells@[start.slot(q)] || self.cells@[self.slot(q)] is None,
                !(width == start.size.0 && height == start.size.1),
                *old(self) == start,
                forall|q: (i32, i32)| #[trigger] in_grid2(size, new_position, q) && q.1 < y ==> {
                    &&& start.in_bounds(q) ==> cells@[index2(size, new_position, q)] == start.cells@[start.slot(q)]
                    &&& !start.in_bounds(q) ==> cells@[index2(size, new_position, q)] is Some
                },
                manage.try_ready(),
                u == unload@.len(),
                new_position.0 + width <= i32::MAX,
                new_position.1 + height <= i32::MAX,
                states.len() == u + cells@.len() + 1,
                states[0] == manage0,
                states[u + cells@.len()] == manage,
                forall|k: int| 0 <= k < u ==> try_manager_step::<(i32, i32), T, E, M>(states[k], #[trigger] Self::unload_calls(&start, unload@)[k], states[k + 1]),
                forall|j: int| 0 <= j < cells@.len() ==> try_manager_step::<(i32, i32), T, E, M>(states[u + j], #[trigger] fill_calls2(start.grid_size(), start.grid_offset(), size, new_position, cells@)[j], states[u + j + 1]),
            decreases y_end - y,
        {
            let mut x = ox;
            while x < x_end
                invariant
                    self.wf(),
                    self.size == start.size,
                    self.wrap_offset == start.wrap_offset,
                    self.grid_offset == start.grid_offset,
                    size == (width, height),
                    x_end == ox + width,
                    y_end == oy + height,
                    new_position == (ox, oy),
                    oy <= y < y_end,
                    ox <= x <= x_end,
                    cells@.len() == (y - oy) * width + (x - ox),
                    forall|q: (i32, i32)| #[trigger] start.in_bounds(q) && in_grid2(size, new_position, q) && !(q.1 < y || (q.1 == y && q.0 < x)) ==> self.cells@[self.slot(q)] == start.cells@[start.slot(q)],
                    forall|q: (i32, i32)| #[trigger] start.in_bounds(q) && in_grid2(size, new_position, q) && (q.1 < y || (q.1 == y && q.0 < x)) ==> self.cells@[self.slot(q)] is None,
                    forall|k: int| 0 <= k < u ==> self.cells@[self.slot(#[trigger] unload@[k])] is None,
                    forall|k: int| 0 <= k < unload@.len() ==> start.in_bounds(#[trigger] unload@[k]) && !in_grid2(size, new_position, unload@[k]),
                    forall|q: (i32, i32)| #[trigger] start.in_bounds(q) ==> self.cells@[self.slot(q)] == start.cells@[start.slot(q)] || self.cells@[self.slot(q)] is None,
                    !(width == start.size.0 && height == start.size.1),
                *old(self) == start,
                    forall|q: (i32, i32)| #[trigger] in_grid2(size, new_position, q) && (q.1 < y || (q.1 == y && q.0 < x)) ==> {
                        &&& start.in_bounds(q) ==> cells@[index2(size, new_position, q)] == start.cells@[start.slot(q)]
                        &&& !start.in_bounds(q) ==> cells@[index2(size, new_position, q)] is Some
                    },
                    manage.try_ready(),
                    u == unload@.len(),
                    new_position.0 + width <= i32::MAX,
                    new_position.1 + height <= i32::MAX,
                    states.len() == u + cells@.len() + 1,
                    states[0] == manage0,
                    states[u + cells@.len()] == manage,
                    forall|k: int| 0 <= k < u ==> try_manager_step::<(i32, i32), T, E, M>(states[k], #[trigger] Self::unload_calls(&start, unload@)[k], states[k + 1]),
                    forall|j: int| 0 <= j < cells@.len() ==> try_manager_step::<(i32, i32), T, E, M>(states[u + j], #[trigger] fill_calls2(start.grid_size(), start.grid_offset(), size, new_position, cells@)[j], states[u + j + 1]),
                decreases x_end - x,
            {
                let p = (x, y);
                let ghost before = cells@;
                let ghost m0 = manage;
                proof {
                    lemma_index2(size, new_position, p, p);
                    lemma_position2(size, new_position, before.len() as int, p);
                    assert(index2(size, new_position, p) == before.len());
                }
                match self.offset_index(p) {
                    Some(index) => {
                        proof {
                            assert forall|q: (i32, i32)| #[trigger] start.in_bounds(q) && q != p implies slot2(self.size, self.wrap_offset, self.grid_offset, q) != index
                                && 0 <= slot2(self.size, self.wrap_offset, self.grid_offset, q) < self.cells@.len() by {
                                self.lemma_slot(q, p);
                            }
                        }
                        let ghost cells_before = self.cells@;
                        let v = self.cells[index].take();
                        cells.push(v);
                        proof {
                            assert forall|k: int| 0 <= k < u implies self.cells@[self.slot(#[trigger] unload@[k])] is None by {
                                assert(unload@[k] != p);
                                assert(self.cells@[self.slot(unload@[k])] == cells_before[self.slot(unload@[k])]);
                            }
                            assert forall|q: (i32, i32)| #[trigger] start.in_bounds(q) && in_grid2(size, new_position, q) && (q.1 < y || (q.1 == y && q.0 < x + 1)) implies self.cells@[self.slot(q)] is None by {
                                if q != p {
                                    assert(self.cells@[self.slot(q)] == cells_before[self.slot(q)]);
                                }
                            }
                        }
                    },
                    None => {
                        let res = manage.try_load(p);
                        match res {
                            Ok(v) => cells.push(Some(v)),
                            Err(e) => {
                                let r: Result<(), E> = Err(e);
                                proof {
                                    assert forall|q: (i32, i32)| #[trigger] self@.contains_key(q) implies start@.contains_key(q) && self@[q] == start@[q] by {
                                        assert(start.in_bounds(q));
                                    }
                                    let calls = Self::unload_calls(&start, unload@) + fill_calls2(start.grid_size(), start.grid_offset(), size, new_position, cells@);
                                    assert forall|k: int| 0 <= k < calls.len() implies try_manager_step::<(i32, i32), T, E, M>(states[k], #[trigger] calls[k], states[k + 1]) by {
                                        if k < u {
                                            assert(calls[k] == Self::unload_calls(&start, unload@)[k]);
                                        } else {
                                            assert(calls[k] == fill_calls2(start.grid_size(), start.grid_offset(), size, new_position, cells@)[k - u]);
                                            assert(try_manager_step::<(i32, i32), T, E, M>(states[u + (k - u)], fill_calls2(start.grid_size(), start.grid_offset(), size, new_position, cells@)[k - u], states[u + (k - u) + 1]));
                                        }
                                    }
                                    let call = ManagerCall::Load(p, vstd::pervasive::arbitrary());
                                    assert(m0.try_loads(p, Err(r->Err_0), manage));
                                    assert(try_manager_failure::<(i32, i32), T, E, M>(states[calls.len() as int], call, r->Err_0, manage));
                                    lemma_try_manager_stops::<(i32, i32), T, E, M>(manage0, calls, states, call, r->Err_0, manage);
                                    assert(position2(size, new_position, cells@.len() as int) == p);
                                    assert forall|q: (i32, i32)| #[trigger] self@.contains_key(q) <==> (start@.contains_key(q) && !unload@.contains(q) && !(in_grid2(size, new_position, q) && index2(size, new_position, q) < cells@.len())) by {
                                        if start.in_bounds(q) {
                                            if unload@.contains(q) {
                                                let k = choose|k: int| 0 <= k < unload@.len() && unload@[k] == q;
                                                assert(self.cells@[self.slot(unload@[k])] is None);
                                            } else if !in_grid2(size, new_position, q) {
                                                assert(unload@.contains(q));
                                            } else {
                                                lemma_index2(size, new_position, q, p);
                                                lemma_index2(size, new_position, p, q);
                                            }
                                        }
                                    }
                                    assert(self.load_stopped(&start, size, new_position, unload@, manage0, r->Err_0));
                                    assert(is_unload_plan2(start.grid_size(), start.grid_offset(), size, new_position, unload@));
                                }
                                return r;
                            },
                        }
                    },
                }
                proof {
                    assert forall|q: (i32, i32)| #[trigger] in_grid2(size, new_position, q) && (q.1 < y || (q.1 == y && q.0 < x + 1)) implies {
                        &&& start.in_bounds(q) ==> cells@[index2(size, new_position, q)] == start.cells@[start.slot(q)]
                        &&& !start.in_bounds(q) ==> cells@[index2(size, new_position, q)] is Some
                    } by {
                        lemma_index2(size, new_position, q, p);
                        if q != p {
                            assert(cells@[index2(size, new_position, q)] == before[index2(size, new_position, q)]);
                        }
                    }
                    let prev_states = states;
                    states = states.push(manage);
                    assert forall|k: int| 0 <= k < u implies try_manager_step::<(i32, i32), T, E, M>(states[k], #[trigger] Self::unload_calls(&start, unload@)[k], states[k + 1]) by {
                        assert(try_manager_step::<(i32, i32), T, E, M>(prev_states[k], Self::unload_calls(&start, unload@)[k], prev_states[k + 1]));
                    }
                    assert forall|j: int| 0 <= j < cells@.len() implies try_manager_step::<(i32, i32), T, E, M>(states[u + j], #[trigger] fill_calls2(start.grid_size(), start.grid_offset(), size, new_position, cells@)[j], states[u + j + 1]) by {
                        if j < before.len() {
                            assert(fill_calls2(start.grid_size(), start.grid_offset(), size, new_position, cells@)[j] == fill_calls2(start.grid_size(), start.grid_offset(), size, new_position, before)[j]);
                            assert(try_manager_step::<(i32, i32), T, E, M>(prev_states[u + j], fill_calls2(start.grid_size(), start.grid_offset(), size, new_position, before)[j], prev_states[u + j + 1]));
                        } else {
                            assert(j == before.len());
                            assert(position2(size, new_position, j) == p);
                        }
                    }
                }
                x = x + 1;
            }
            assert((y - oy) * width + width == (y + 1 - oy) * width) by (nonlinear_arith);
            y = y + 1;
        }
        assert((y_end - oy) * width == width * height) by (nonlinear_arith)
            requires
                y_end - oy == height,
        ;
        let ghost filled = cells@;
        self.cells = cells;
        self.size = size;
        self.grid_offset = new_position;
        self.wrap_offset = (0, 0);
        proof {
            assert forall|q: (i32, i32)| #[trigger] self.in_bounds(q) implies self.slot(q) == index2(size, new_position, q) && 0 <= self.slot(q) < self.cells@.len() by {
                lemma_index2(size, new_position, q, q);
            }
            assert forall|j: int| 0 <= j < filled.len() implies #[trigger] self.load_calls(&start)[j] == fill_calls2(start.grid_size(), start.grid_offset(), size, new_position, filled)[j] by {
                let q = position2(size, new_position, j);
                lemma_position2(size, new_position, j, q);
                assert(self.in_bounds(q));
                assert(self.slot(q) == j);
            }
            assert(self.load_calls(&start) =~= fill_calls2(start.grid_size(), start.grid_offset(), size, new_position, filled));
            let calls = Self::unload_calls(&start, unload@) + self.load_calls(&start);
            assert forall|k: int| 0 <= k < calls.len() implies try_manager_step::<(i32, i32), T, E, M>(states[k], #[trigger] calls[k], states[k + 1]) by {
                if k < u {
                    assert(calls[k] == Self::unload_calls(&start, unload@)[k]);
                } else {
                    assert(calls[k] == fill_calls2(start.grid_size(), start.grid_offset(), size, new_position, filled)[k - u]);
                    assert(try_manager_step::<(i32, i32), T, E, M>(states[u + (k - u)], fill_calls2(start.grid_size(), start.grid_offset(), size, new_position, filled)[k - u], states[u + (k - u) + 1]));
                }
            }
            lemma_try_manager_runs::<(i32, i32), T, E, M>(manage0, calls, states);
            assert(is_unload_plan2(start.grid_size(), start.grid_offset(), size, new_position, unload@));
        }
        Ok(())
    }

    /// Inflate the size by `inflate`, keeping the bounds centered.
    ///
    /// If the size is `(2, 2)` with an offset of `(1, 1)`, and you want to inflate by `(1, 1)`.
    /// The result of that operation would have a size of `(4, 4)` and an offset of `(0, 0)`.
    /// The calls made on `manage` are those [RollGrid2D::managed_from] describes.
    /// See [CellManage].
    pub fn inflate_size<M: CellManage<(i32, i32), T>>(&mut self, inflate: (u32, u32), manage: M)
        requires
            old(self).wf(),
            manage.ready(),
            old(self).grid_size().0 + 2 * inflate.0 <= u32::MAX,
            old(self).grid_size().1 + 2 * inflate.1 <= u32::MAX,
            old(self).grid_offset().0 - inflate.0 >= i32::MIN,
            old(self).grid_offset().1 - inflate.1 >= i32::MIN,
            old(self).grid_offset().0 + old(self).grid_size().0 + inflate.0 <= i32::MAX,
            old(self).grid_offset().1 + old(self).grid_size().1 + inflate.1 <= i32::MAX,
            (old(self).grid_size().0 + 2 * inflate.0) * (old(self).grid_size().1 + 2 * inflate.1) <= usize::MAX,
        ensures
            final(self).grid_offset().0 == old(self).grid_offset().0 - inflate.0,
            final(self).grid_offset().0 + final(self).grid_size().0 == old(self).grid_offset().0 + old(self).grid_size().0 + inflate.0,
            final(self).grid_offset().1 == old(self).grid_offset().1 - inflate.1,
            final(self).grid_offset().1 + final(self).grid_size().1 == old(self).grid_offset().1 + old(self).grid_size().1 + inflate.1,
            final(self).resized_from(
                old(self),
                inflated2(old(self).grid_size(), old(self).grid_offset(), inflate).0,
                inflated2(old(self).grid_size(), old(self).grid_offset(), inflate).1,
            ),
            final(self).managed_from(old(self), manage),
    {
        let width = self.size.0 + inflate.0 * 2;
        let height = self.size.1 + inflate.1 * 2;
        let position = ((self.grid_offset.0 as i64 - inflate.0 as i64) as i32, (self.grid_offset.1 as i64 - inflate.1 as i64) as i32);
        assert(width * height > 0) by (nonlinear_arith)
            requires
                width > 0,
                height > 0,
        ;
        self.resize_and_reposition(width, height, position, manage);
    }

    /// Try to inflate the size by `inflate` using a fallible manager, keeping the bounds centered.
    /// On success the calls made on `manage` are those [RollGrid2D::try_managed_from] describes;
    /// on an error, the calls made and the state left are those [RollGrid2D::try_stopped_from]
    /// describes.
    /// See [TryCellManage].
    pub fn try_inflate_size<E, M: TryCellManage<(i32, i32), T, E>>(&mut self, inflate: (u32, u32), manage: M) -> (r: Result<(), E>)
        requires
            old(self).wf(),
            manage.try_ready(),
            old(self).grid_size().0 + 2 * inflate.0 <= u32::MAX,
            old(self).grid_size().1 + 2 * inflate.1 <= u32::MAX,
            old(self).grid_offset().0 - inflate.0 >= i32::MIN,
            old(self).grid_offset().1 - inflate.1 >= i32::MIN,
            old(self).grid_offset().0 + old(self).grid_size().0 + inflate.0 <= i32::MAX,
            old(self).grid_offset().1 + old(self).grid_size().1 + inflate.1 <= i32::MAX,
            (old(self).grid_size().0 + 2 * inflate.0) * (old(self).grid_size().1 + 2 * inflate.1) <= usize::MAX,
        ensures
            r is Ok ==> final(self).grid_offset().0 == old(self).grid_offset().0 - inflate.0,
            r is Ok ==> final(self).grid_offset().0 + final(self).grid_size().0 == old(self).grid_offset().0 + old(self).grid_size().0 + inflate.0,
            r is Ok ==> final(self).grid_offset().1 == old(self).grid_offset().1 - inflate.1,
            r is Ok ==> final(self).grid_offset().1 + final(self).grid_size().1 == old(self).grid_offset().1 + old(self).grid_size().1 + inflate.1,
            r is Ok ==> final(self).try_managed_from(old(self), manage),
            r is Err ==> final(self).try_stopped_from(
                old(self),
                inflated2(old(self).grid_size(), old(self).grid_offset(), inflate).0,
                inflated2(old(self).grid_size(), old(self).grid_offset(), inflate).1,
                manage,
                r->Err_0,
            ),
            r is Ok ==> final(self).resized_from(
                old(self),
                inflated2(old(self).grid_size(), old(self).grid_offset(), inflate).0,
                inflated2(old(self).grid_size(), old(self).grid_offset(), inflate).1,
            ),
            r is Err ==> final(self).resize_stopped(
                old(self),
                inflated2(old(self).grid_size(), old(self).grid_offset(), inflate).0,
                inflated2(old(self).grid_size(), old(self).grid_offset(), inflate).1,
            ),
            inflate == (0u32, 0u32) ==> r is Ok,
    {
        let width = self.size.0 + inflate.0 * 2;
        let height = self.size.1 + inflate.1 * 2;
        let position = ((self.grid_offset.0 as i64 - inflate.0 as i64) as i32, (self.grid_offset.1 as i64 - inflate.1 as i64) as i32);
        assert(width * height > 0) by (nonlinear_arith)
            requires
                width > 0,
                height > 0,
        ;
        self.try_resize_and_reposition(width, height, position, manage)
    }

    /// Deflate the size by `deflate`, keeping the bounds centered.
    ///
    /// If the size is `(4, 4)` with an offset of `(0, 0)`, and you want to deflate by `(1, 1)`.
    /// The result of that operation would have a size of `(2, 2)` and an offset of `(1, 1)`.
    /// The calls made on `manage` are those [RollGrid2D::managed_from] describes.
    /// See [CellManage].
    pub fn deflate_size<M: CellManage<(i32, i32), T>>(&mut self, deflate: (u32, u32), manage: M)
        requires
            old(self).wf(),
            manage.ready(),
            2 * deflate.0 < old(self).grid_size().0,
            2 * deflate.1 < old(self).grid_size().1,
        ensures
            final(self).grid_offset().0 == old(self).grid_offset().0 + deflate.0,
            final(self).grid_offset().0 + final(self).grid_size().0 == old(self).grid_offset().0 + old(self).grid_size().0 - deflate.0,
            final(self).grid_offset().1 == old(self).grid_offset().1 + deflate.1,
            final(self).grid_offset().1 + final(self).grid_size().1 == old(self).grid_offset().1 + old(self).grid_size().1 - deflate.1,
            final(self).resized_from(
                old(self),
                deflated2(old(self).grid_size(), old(self).grid_offset(), deflate).0,
                deflated2(old(self).grid_size(), old(self).grid_offset(), deflate).1,
            ),
            final(self).managed_from(old(self), manage),
    {
        let width = self.size.0 - deflate.0 * 2;
        let height = self.size.1 - deflate.1 * 2;
        let position = ((self.grid_offset.0 as i64 + deflate.0 as i64) as i32, (self.grid_offset.1 as i64 + deflate.1 as i64) as i32);
        assert(width * height > 0 && width * height <= self.size.0 * self.size.1) by (nonlinear_arith)
            requires
                0 < width <= self.size.0,
                0 < height <= self.size.1,
        ;
        self.resize_and_reposition(width, height, position, manage);
    }

    /// Try to deflate the size by `deflate` using a fallible manager, keeping the bounds centered.
    /// On success the calls made on `manage` are those [RollGrid2D::try_managed_from] describes;
    /// on an error, the calls made and the state left are those [RollGrid2D::try_stopped_from]
    /// describes.
    /// See [TryCellManage].
    pub fn try_deflate_size<E, M: TryCellManage<(i32, i32), T, E>>(&mut self, deflate: (u32, u32), manage: M) -> (r: Result<(), E>)
        requires
            old(self).wf(),
            manage.try_ready(),
            2 * deflate.0 < old(self).grid_size().0,
            2 * deflate.1 < old(self).grid_size().1,
        ensures
            r is Ok ==> final(self).grid_offset().0 == old(self).grid_offset().0 + deflate.0,
            r is Ok ==> final(self).grid_offset().0 + final(self).grid_size().0 == old(self).grid_offset().0 + old(self).grid_size().0 - deflate.0,
            r is Ok ==> final(self).grid_offset().1 == old(self).grid_offset().1 + deflate.1,
            r is Ok ==> final(self).grid_offset().1 + final(self).grid_size().1 == old(self).grid_offset().1 + old(self).grid_size().1 - deflate.1,
            r is Ok ==> final(self).try_managed_from(old(self), manage),
            r is Err ==> final(self).try_stopped_from(
                old(self),
                deflated2(old(self).grid_size(), old(self).grid_offset(), deflate).0,
                deflated2(old(self).grid_size(), old(self).grid_offset(), deflate).1,
                manage,
                r->Err_0,
            ),
            r is Ok ==> final(self).resized_from(
                old(self),
                deflated2(old(self).grid_size(), old(self).grid_offset(), deflate).0,
                deflated2(old(self).grid_size(), old(self).grid_offset(), deflate).1,
            ),
            r is Err ==> final(self).resize_stopped(
                old(self),
                deflated2(old(self).grid_size(), old(self).grid_offset(), deflate).0,
                deflated2(old(self).grid_size(), old(self).grid_offset(), deflate).1,
            ),
            deflate == (0u32, 0u32) ==> r is Ok,
    {
        let width = self.size.0 - deflate.0 * 2;
        let height = self.size.1 - deflate.1 * 2;
        let position = ((self.grid_offset.0 as i64 + deflate.0 as i64) as i32, (self.grid_offset.1 as i64 + deflate.1 as i64) as i32);
        assert(width * height > 0 && width * height <= self.size.0 * self.size.1) by (nonlinear_arith)
            requires
                0 < width <= self.size.0,
                0 < height <= self.size.1,
        ;
        self.try_resize_and_reposition(width, height, position, manage)
    }

    /// Resize the grid without changing the offset.
    /// The calls made on `manage` are those [RollGrid2D::managed_from] describes.
    /// See [CellManage].
    pub fn resize<M: CellManage<(i32, i32), T>>(&mut self, new_width: u32, new_height: u32, manage: M)
        requires
            old(self).wf(),
            manage.ready(),
            new_width * new_height > 0,
            new_width * new_height <= usize::MAX,
            old(self).grid_offset().0 + new_width <= i32::MAX,
            old(self).grid_offset().1 + new_height <= i32::MAX,
        ensures
            final(self).resized_from(old(self), (new_width, new_height), old(self).grid_offset()),
            final(self).managed_from(old(self), manage),
    {
        let position = self.grid_offset;
        self.resize_and_reposition(new_width, new_height, position, manage);
    }

    /// Try to resize the grid with a fallible manager without changing the offset.
    /// On success the calls made on `manage` are those [RollGrid2D::try_managed_from] describes;
    /// on an error, the calls made and the state left are those [RollGrid2D::try_stopped_from]
    /// describes.
    /// See [TryCellManage].
    pub fn try_resize<E, M: TryCellManage<(i32, i32), T, E>>(&mut self, new_width: u32, new_height: u32, manage: M) -> (r: Result<(), E>)
        requires
            old(self).wf(),
            manage.try_ready(),
            new_width * new_height > 0,
            new_width * new_height <= usize::MAX,
            old(self).grid_offset().0 + new_width <= i32::MAX,
            old(self).grid_offset().1 + new_height <= i32::MAX,
        ensures
            r is Ok ==> final(self).try_managed_from(old(self), manage),
            r is Err ==> final(self).try_stopped_from(old(self), (new_width, new_height), old(self).grid_offset(), manage, r->Err_0),
            r is Ok ==> final(self).resized_from(old(self), (new_width, new_height), old(self).grid_offset()),
            r is Err ==> final(self).resize_stopped(old(self), (new_width, new_height), old(self).grid_offset()),
            (new_width, new_height) == old(self).grid_size() ==> r is Ok,
    {
        let position = self.grid_offset;
        self.try_resize_and_reposition(new_width, new_height, position, manage)
    }

    /// Reposition the offset of the grid and reload the slots that are changed.
    ///
    /// The reload function takes the old position, the new position, and
    /// a mutable reference to the cell where the initial value of the cell
    /// when called is the value at `old_position`. You want to change the
    /// cell to the correct value for a cell at `new_position`.
    /// The cells are reloaded in the order given by [reposition_plan2].
    pub fn reposition<F: FnMut((i32, i32), (i32, i32), &mut T)>(&mut self, position: (i32, i32), reload: F)
        requires
            old(self).wf(),
            placements_fit2(old(self).grid_size(), old(self).grid_offset(), position),
            forall|a: (i32, i32), b: (i32, i32), c: &mut T| call_requires(reload, (a, b, c)),
        ensures
            final(self).wf(),
            final(self).grid_size() == old(self).grid_size(),
            final(self).grid_offset() == position,
            forall|p: (i32, i32)| old(self).in_bounds(p) && final(self).in_bounds(p) ==> (#[trigger] final(self)@.contains_key(p) <==> old(self)@.contains_key(p)),
            forall|p: (i32, i32)| old(self).in_bounds(p) && final(self).in_bounds(p) && old(self)@.contains_key(p) ==> #[trigger] final(self)@[p] == old(self)@[p],
            old(self).full() ==> final(self).full(),
            forall|p: (i32, i32)|
                #![trigger enters2(old(self).grid_size(), old(self).grid_offset(), position, p)]
                enters2(old(self).grid_size(), old(self).grid_offset(), position, p) && old(self)@.contains_key(prior2(old(self).grid_size(), old(self).grid_offset(), position, p))
                    ==> exists|c: &mut T|
                    *c == old(self)@[prior2(old(self).grid_size(), old(self).grid_offset(), position, p)] && *final(c) == final(self)@[p]
                        && #[trigger] call_ensures(reload, (prior2(old(self).grid_size(), old(self).grid_offset(), position, p), p, c), ()),
    {
        if self.grid_offset.0 == position.0 && self.grid_offset.1 == position.1 {
            return;
        }
        let b = self.bounds();
        let src_bounds = Ghost(b);
        let ghost start = *self;
        let plan = self.begin_reposition(position);
        proof {
            start.lemma_moved(self);
        }
        let ghost mid = *self;
        self.reload_planned(&plan, src_bounds, reload);
        proof {
            let size = start.grid_size();
            let src = start.grid_offset();
            assert forall|p: (i32, i32)|
                #[trigger] enters2(size, src, position, p) && start@.contains_key(prior2(size, src, position, p)) implies exists|c: &mut T|
                *c == start@[prior2(size, src, position, p)] && *final(c) == self@[p]
                    && call_ensures(reload, (prior2(size, src, position, p), p, c), ()) by {
                let k = choose|k: int| 0 <= k < plan@.len() && (#[trigger] plan@[k]).1 == p;
                assert(mid.in_bounds(p));
                assert(mid@.contains_key(p));
                assert(mid@[p] == start@[prior2(size, src, position, p)]);
                assert(plan@[k].0 == prior2(size, src, position, p));
            }
        }
    }

    /// Try to reposition the offset of the grid and reload the slots that are changed,
    /// stopping at the first error of the reload function and returning it.
    ///
    /// The offset is moved to `position` in either case. The cells are reloaded in the
    /// order given by [reloads_before2]; on an error, which is the error that reload gave,
    /// the cells after the one whose reload failed keep the values of the cells they took
    /// over.
    pub fn try_reposition<E, F: FnMut((i32, i32), (i32, i32), &mut T) -> Result<(), E>>(&mut self, position: (i32, i32), reload: F) -> (r: Result<(), E>)
        requires
            old(self).wf(),
            placements_fit2(old(self).grid_size(), old(self).grid_offset(), position),
            forall|a: (i32, i32), b: (i32, i32), c: &mut T| call_requires(reload, (a, b, c)),
        ensures
            final(self).wf(),
            final(self).grid_size() == old(self).grid_size(),
            final(self).grid_offset() == position,
            forall|p: (i32, i32)| old(self).in_bounds(p) && final(self).in_bounds(p) ==> (#[trigger] final(self)@.contains_key(p) <==> old(self)@.contains_key(p)),
            forall|p: (i32, i32)| old(self).in_bounds(p) && final(self).in_bounds(p) && old(self)@.contains_key(p) ==> #[trigger] final(self)@[p] == old(self)@[p],
            old(self).full() ==> final(self).full(),
            old(self).grid_offset() == position ==> r is Ok,
            r is Ok ==> forall|p: (i32, i32)|
                #![trigger enters2(old(self).grid_size(), old(self).grid_offset(), position, p)]
                enters2(old(self).grid_size(), old(self).grid_offset(), position, p) && old(self)@.contains_key(prior2(old(self).grid_size(), old(self).grid_offset(), position, p))
                    ==> exists|c: &mut T, res: Result<(), E>|
                    *c == old(self)@[prior2(old(self).grid_size(), old(self).grid_offset(), position, p)] && *final(c) == final(self)@[p]
                        && #[trigger] call_ensures(reload, (prior2(old(self).grid_size(), old(self).grid_offset(), position, p), p, c), res) && res is Ok,
            r is Err ==> exists|f: (i32, i32)|
                #![trigger enters2(old(self).grid_size(), old(self).grid_offset(), position, f)]
                enters2(old(self).grid_size(), old(self).grid_offset(), position, f) && old(self)@.contains_key(prior2(old(self).grid_size(), old(self).grid_offset(), position, f)) && {
                    &&& exists|c: &mut T, res: Result<(), E>|
                        *c == old(self)@[prior2(old(self).grid_size(), old(self).grid_offset(), position, f)] && *final(c) == final(self)@[f] && #[trigger] call_ensures(reload, (prior2(old(self).grid_size(), old(self).grid_offset(), position, f), f, c), res) && res is Err && res->Err_0 == r->Err_0
                    &&& forall|p: (i32, i32)|
                        #![trigger enters2(old(self).grid_size(), old(self).grid_offset(), position, p)]
                        enters2(old(self).grid_size(), old(self).grid_offset(), position, p) && old(self)@.contains_key(prior2(old(self).grid_size(), old(self).grid_offset(), position, p)) && reloads_before2(old(self).grid_size(), old(self).grid_offset(), position, p, f) ==> exists|c: &mut T, res: Result<(), E>|
                            *c == old(self)@[prior2(old(self).grid_size(), old(self).grid_offset(), position, p)] && *final(c) == final(self)@[p] && #[trigger] call_ensures(reload, (prior2(old(self).grid_size(), old(self).grid_offset(), position, p), p, c), res) && res is Ok
                    &&& forall|p: (i32, i32)|
                        #![trigger enters2(old(self).grid_size(), old(self).grid_offset(), position, p)]
                        enters2(old(self).grid_size(), old(self).grid_offset(), position, p) && old(self)@.contains_key(prior2(old(self).grid_size(), old(self).grid_offset(), position, p)) && p != f && !reloads_before2(old(self).grid_size(), old(self).grid_offset(), position, p, f) ==> final(self)@[p] == old(self)@[prior2(old(self).grid_size(), old(self).grid_offset(), position, p)]
                },
    {
        if self.grid_offset.0 == position.0 && self.grid_offset.1 == position.1 {
            return Ok(());
        }
        let b = self.bounds();
        let src_bounds = Ghost(b);
        let ghost start = *self;
        let plan = self.begin_reposition(position);
        proof {
            start.lemma_moved(self);
        }
        let ghost mid = *self;
        let r = self.try_reload_planned(&plan, src_bounds, reload);
        proof {
            let size = start.grid_size();
            let src = start.grid_offset();
            if r is Ok {
                assert forall|p: (i32, i32)|
                    #[trigger] enters2(size, src, position, p) && start@.contains_key(prior2(size, src, position, p)) implies exists|c: &mut T, res: Result<(), E>|
                    *c == start@[prior2(size, src, position, p)] && *final(c) == self@[p]
                        && call_ensures(reload, (prior2(size, src, position, p), p, c), res) && res is Ok by {
                    let k = choose|k: int| 0 <= k < plan@.len() && (#[trigger] plan@[k]).1 == p;
                    assert(mid.in_bounds(p));
                    assert(mid@.contains_key(p));
                    assert(mid@[p] == start@[prior2(size, src, position, p)]);
                    assert(plan@[k].0 == prior2(size, src, position, p));
                }
            } else {
                let j = choose|j: int|
                    #![trigger plan@[j]]
                    0 <= j < plan@.len() && mid@.contains_key(plan@[j].1) && {
                        &&& exists|c: &mut T, res: Result<(), E>|
                            *c == mid@[plan@[j].1] && *final(c) == self@[plan@[j].1] && #[trigger] call_ensures(reload, (plan@[j].0, plan@[j].1, c), res) && res is Err && res->Err_0 == r->Err_0
                        &&& forall|k: int|
                            #![trigger plan@[k]]
                            0 <= k < j && mid@.contains_key(plan@[k].1) ==> exists|c: &mut T, res: Result<(), E>|
                                *c == mid@[plan@[k].1] && *final(c) == self@[plan@[k].1] && #[trigger] call_ensures(reload, (plan@[k].0, plan@[k].1, c), res) && res is Ok
                        &&& forall|k: int|
                            #![trigger plan@[k]]
                            j < k < plan@.len() && mid@.contains_key(plan@[k].1) ==> self@[plan@[k].1] == mid@[plan@[k].1]
                    };
                let f = plan@[j].1;
                assert(mid.in_bounds(f));
                assert(mid@[f] == start@[prior2(size, src, position, f)]);
                assert(enters2(size, src, position, f));
                assert forall|p: (i32, i32)|
                    #[trigger] enters2(size, src, position, p) && start@.contains_key(prior2(size, src, position, p)) && reloads_before2(size, src, position, p, f) implies exists|c: &mut T, res: Result<(), E>|
                    *c == start@[prior2(size, src, position, p)] && *final(c) == self@[p]
                        && call_ensures(reload, (prior2(size, src, position, p), p, c), res) && res is Ok by {
                    let k = choose|k: int| 0 <= k < plan@.len() && (#[trigger] plan@[k]).1 == p;
                    assert(mid.in_bounds(p));
                    assert(mid@.contains_key(p));
                    assert(mid@[p] == start@[prior2(size, src, position, p)]);
                    assert(plan@[k].0 == prior2(size, src, position, p));
                    if k >= j {
                        if k > j {
                            assert(reloads_before2(size, src, position, plan@[j].1, plan@[k].1));
                        }
                        assert(false);
                    }
                }
                assert forall|p: (i32, i32)|
                    #[trigger] enters2(size, src, position, p) && start@.contains_key(prior2(size, src, position, p)) && p != f && !reloads_before2(size, src, position, p, f) implies self@[p] == start@[prior2(size, src, position, p)] by {
                    let k = choose|k: int| 0 <= k < plan@.len() && (#[trigger] plan@[k]).1 == p;
                    assert(mid.in_bounds(p));
                    assert(mid@.contains_key(p));
                    assert(mid@[p] == start@[prior2(size, src, position, p)]);
                    if k <= j {
                        if k < j {
                            assert(reloads_before2(size, src, position, plan@[k].1, plan@[j].1));
                        }
                        assert(false);
                    }
                }
            }
        }
        r
    }

    /// Calls the fallible `reload` on the cell of each planned new position, stopping at
    /// the first error.
    #[verifier::loop_isolation(false)]
    fn try_reload_planned<E, F: FnMut((i32, i32), (i32, i32), &mut T) -> Result<(), E>>(&mut self, plan: &Vec<((i32, i32), (i32, i32))>, src_bounds: Ghost<Bounds2D>, reload: F) -> (r: Result<(), E>)
        requires
            old(self).wf(),
            forall|a: (i32, i32), b: (i32, i32), c: &mut T| call_requires(reload, (a, b, c)),
            forall|k: int| 0 <= k < plan@.len() ==> {
                &&& old(self).in_bounds((#[trigger] plan@[k]).1)
                &&& !src_bounds@.contains_spec(plan@[k].1)
            },
            forall|i: int, j: int| 0 <= i < j < plan@.len() ==> (#[trigger] plan@[i]).1 != (#[trigger] plan@[j]).1,
        ensures
            final(self).wf(),
            final(self).grid_size() == old(self).grid_size(),
            final(self).grid_offset() == old(self).grid_offset(),
            forall|p: (i32, i32)| #[trigger] old(self).in_bounds(p) ==> (final(self)@.contains_key(p) <==> old(self)@.contains_key(p)),
            forall|p: (i32, i32)| old(self).in_bounds(p) && src_bounds@.contains_spec(p) && old(self)@.contains_key(p) ==> #[trigger] final(self)@[p] == old(self)@[p],
            plan@.len() == 0 ==> r is Ok,
            r is Ok ==> forall|k: int|
                #![trigger plan@[k]]
                0 <= k < plan@.len() && old(self)@.contains_key(plan@[k].1) ==> exists|c: &mut T, res: Result<(), E>|
                    *c == old(self)@[plan@[k].1] && *final(c) == final(self)@[plan@[k].1] && #[trigger] call_ensures(reload, (plan@[k].0, plan@[k].1, c), res) && res is Ok,
            r is Err ==> exists|j: int|
                #![trigger plan@[j]]
                0 <= j < plan@.len() && old(self)@.contains_key(plan@[j].1) && {
                    &&& exists|c: &mut T, res: Result<(), E>|
                        *c == old(self)@[plan@[j].1] && *final(c) == final(self)@[plan@[j].1] && #[trigger] call_ensures(reload, (plan@[j].0, plan@[j].1, c), res) && res is Err && res->Err_0 == r->Err_0
                    &&& forall|k: int|
                        #![trigger plan@[k]]
                        0 <= k < j && old(self)@.contains_key(plan@[k].1) ==> exists|c: &mut T, res: Result<(), E>|
                            *c == old(self)@[plan@[k].1] && *final(c) == final(self)@[plan@[k].1] && #[trigger] call_ensures(reload, (plan@[k].0, plan@[k].1, c), res) && res is Ok
                    &&& forall|k: int|
                        #![trigger plan@[k]]
                        j < k < plan@.len() && old(self)@.contains_key(plan@[k].1) ==> final(self)@[plan@[k].1] == old(self)@[plan@[k].1]
                },
    {
        let ghost reload0 = reload;
        let mut reload = reload;
        let mut i: usize = 0;
        while i < plan.len()
            invariant
                self.wf(),
                self.grid_size() == old(self).grid_size(),
                self.grid_offset() == old(self).grid_offset(),
                reload == reload0,
                forall|a: (i32, i32), b: (i32, i32), c: &mut T| call_requires(reload0, (a, b, c)),
                forall|k: int| 0 <= k < plan@.len() ==> {
                    &&& old(self).in_bounds((#[trigger] plan@[k]).1)
                    &&& !src_bounds@.contains_spec(plan@[k].1)
                },
                forall|p: (i32, i32)| #[trigger] old(self).in_bounds(p) ==> (self@.contains_key(p) <==> old(self)@.contains_key(p)),
                forall|p: (i32, i32)| old(self).in_bounds(p) && src_bounds@.contains_spec(p) && old(self)@.contains_key(p) ==> #[trigger] self@[p] == old(self)@[p],
                forall|i: int, j: int| 0 <= i < j < plan@.len() ==> (#[trigger] plan@[i]).1 != (#[trigger] plan@[j]).1,
                0 <= i <= plan@.len(),
                forall|k: int| 0 <= k < plan@.len() && !(k < i) && old(self)@.contains_key(plan@[k].1) ==> #[trigger] self@[plan@[k].1] == old(self)@[plan@[k].1],
                forall|k: int|
                    #![trigger plan@[k]]
                    0 <= k < i && old(self)@.contains_key(plan@[k].1) ==> exists|c: &mut T, res: Result<(), E>|
                        *c == old(self)@[plan@[k].1] && *final(c) == self@[plan@[k].1] && #[trigger] call_ensures(reload0, (plan@[k].0, plan@[k].1, c), res) && res is Ok,
            decreases plan@.len() - i,
        {
            let (prior, p) = plan[i];
            let index = self.offset_index(p).unwrap();
            let ghost before = *self;
            proof {
                assert forall|q: (i32, i32)| #[trigger] old(self).in_bounds(q) && q != p implies slot2(self.size, self.wrap_offset, self.grid_offset, q) != index
                    && 0 <= slot2(self.size, self.wrap_offset, self.grid_offset, q) < self.cells@.len() by {
                    self.lemma_slot(q, p);
                }
            }
            let res = match &mut self.cells[index] {
                Some(cell) => reload(prior, p, cell),
                None => Ok(()),
            };
            proof {
                assert forall|q: (i32, i32)| #[trigger] old(self).in_bounds(q) implies (self@.contains_key(q) <==> before@.contains_key(q)) by {
                    if q != p {
                        assert(self.cells@[self.slot(q)] == before.cells@[before.slot(q)]);
                    }
                }
                assert forall|q: (i32, i32)| old(self).in_bounds(q) && src_bounds@.contains_spec(q) && old(self)@.contains_key(q) implies #[trigger] self@[q] == old(self)@[q] by {
                    assert(q != p);
                    assert(self.cells@[self.slot(q)] == before.cells@[before.slot(q)]);
                    assert(before@[q] == old(self)@[q]);
                }
                assert forall|k: int| 0 <= k < plan@.len() && k != i && before@.contains_key(plan@[k].1) implies self@.contains_key(plan@[k].1) && #[trigger] self@[plan@[k].1] == before@[plan@[k].1] by {
                    let q = plan@[k].1;
                    if k < i {
                        assert(plan@[k].1 != plan@[i as int].1);
                    } else {
                        assert(plan@[i as int].1 != plan@[k].1);
                    }
                    assert(self.cells@[self.slot(q)] == before.cells@[before.slot(q)]);
                }
                assert(before@.contains_key(p) ==> exists|c: &mut T| *c == before@[p] && *final(c) == self@[p] && #[trigger] call_ensures(reload0, (prior, p, c), res));
            }
            let ghost res0 = res;
            match res {
                Ok(()) => {
                    proof {
                        assert(res is Ok);
                    }
                },
                Err(e) => {
                    proof {
                        assert(before@.contains_key(p));
                        assert(before@[p] == old(self)@[p]);
                        let c = choose|c: &mut T| *c == before@[p] && *final(c) == self@[p] && #[trigger] call_ensures(reload0, (prior, p, c), res0);
                        assert(plan@[i as int] == (prior, p));
                        assert(call_ensures(reload0, (plan@[i as int].0, plan@[i as int].1, c), res0) && res0 is Err);
                        assert forall|k: int| 0 <= k < i && old(self)@.contains_key(plan@[k].1) implies exists|c: &mut T, res: Result<(), E>|
                            *c == old(self)@[plan@[k].1] && *final(c) == self@[plan@[k].1] && #[trigger] call_ensures(reload0, (plan@[k].0, plan@[k].1, c), res) && res is Ok by {
                            assert(plan@[k].1 != plan@[i as int].1);
                            assert(self@[plan@[k].1] == before@[plan@[k].1]);
                        }
                        assert forall|k: int| i < k < plan@.len() && old(self)@.contains_key(plan@[k].1) implies #[trigger] self@[plan@[k].1] == old(self)@[plan@[k].1] by {
                            assert(plan@[i as int].1 != plan@[k].1);
                            assert(self@[plan@[k].1] == before@[plan@[k].1]);
                        }
                        assert(res0->Err_0 == e);
                    }
                    let r: Result<(), E> = Err(e);
                    proof {
                        assert(res0->Err_0 == r->Err_0);
                    }
                    return r;
                },
            }
            i = i + 1;
        }
        Ok(())
    }

    /// Translate the grid by offset amount using a reload function.
    ///
    /// The reload function takes the old position, the new position, and
    /// a mutable reference to the cell where the initial value of the cell
    /// when called is the value at `old_position`. You want to change the
    /// cell to the correct value for a cell at `new_position`.
    pub fn translate<F: FnMut((i32, i32), (i32, i32), &mut T)>(&mut self, offset: (i32, i32), reload: F)
        requires
            old(self).wf(),
            i32::MIN <= old(self).grid_offset().0 + offset.0,
            i32::MIN <= old(self).grid_offset().1 + offset.1,
            old(self).grid_offset().0 + offset.0 + old(self).grid_size().0 <= i32::MAX,
            old(self).grid_offset().1 + offset.1 + old(self).grid_size().1 <= i32::MAX,
            forall|a: (i32, i32), b: (i32, i32), c: &mut T| call_requires(reload, (a, b, c)),
        ensures
            final(self).wf(),
            final(self).grid_size() == old(self).grid_size(),
            final(self).grid_offset() == ((old(self).grid_offset().0 + offset.0) as i32, (old(self).grid_offset().1 + offset.1) as i32),
            forall|p: (i32, i32)| old(self).in_bounds(p) && final(self).in_bounds(p) ==> (#[trigger] final(self)@.contains_key(p) <==> old(self)@.contains_key(p)),
            forall|p: (i32, i32)| old(self).in_bounds(p) && final(self).in_bounds(p) && old(self)@.contains_key(p) ==> #[trigger] final(self)@[p] == old(self)@[p],
            old(self).full() ==> final(self).full(),
            forall|p: (i32, i32)|
                #![trigger enters2(old(self).grid_size(), old(self).grid_offset(), final(self).grid_offset(), p)]
                enters2(old(self).grid_size(), old(self).grid_offset(), final(self).grid_offset(), p) && old(self)@.contains_key(prior2(old(self).grid_size(), old(self).grid_offset(), final(self).grid_offset(), p))
                    ==> exists|c: &mut T|
                    *c == old(self)@[prior2(old(self).grid_size(), old(self).grid_offset(), final(self).grid_offset(), p)] && *final(c) == final(self)@[p]
                        && #[trigger] call_ensures(reload, (prior2(old(self).grid_size(), old(self).grid_offset(), final(self).grid_offset(), p), p, c), ()),
    {
        let (curx, cury) = self.grid_offset;
        let (ox, oy) = offset;
        let position = (curx + ox, cury + oy);
        self.reposition(position, reload);
        assert(self.grid_offset() == position);
    }

    /// Try to translate the grid by offset amount using a fallible reload function,
    /// stopping at the first error and returning it.
    pub fn try_translate<E, F: FnMut((i32, i32), (i32, i32), &mut T) -> Result<(), E>>(&mut self, offset: (i32, i32), reload: F) -> (r: Result<(), E>)
        requires
            old(self).wf(),
            i32::MIN <= old(self).grid_offset().0 + offset.0,
            i32::MIN <= old(self).grid_offset().1 + offset.1,
            old(self).grid_offset().0 + offset.0 + old(self).grid_size().0 <= i32::MAX,
            old(self).grid_offset().1 + offset.1 + old(self).grid_size().1 <= i32::MAX,
            forall|a: (i32, i32), b: (i32, i32), c: &mut T| call_requires(reload, (a, b, c)),
        ensures
            final(self).wf(),
            final(self).grid_size() == old(self).grid_size(),
            final(self).grid_offset() == ((old(self).grid_offset().0 + offset.0) as i32, (old(self).grid_offset().1 + offset.1) as i32),
            forall|p: (i32, i32)| old(self).in_bounds(p) && final(self).in_bounds(p) ==> (#[trigger] final(self)@.contains_key(p) <==> old(self)@.contains_key(p)),
            forall|p: (i32, i32)| old(self).in_bounds(p) && final(self).in_bounds(p) && old(self)@.contains_key(p) ==> #[trigger] final(self)@[p] == old(self)@[p],
            old(self).full() ==> final(self).full(),
            offset == (0i32, 0i32) ==> r is Ok,
            r is Ok ==> forall|p: (i32, i32)|
                #![trigger enters2(old(self).grid_size(), old(self).grid_offset(), final(self).grid_offset(), p)]
                enters2(old(self).grid_size(), old(self).grid_offset(), final(self).grid_offset(), p) && old(self)@.contains_key(prior2(old(self).grid_size(), old(self).grid_offset(), final(self).grid_offset(), p))
                    ==> exists|c: &mut T, res: Result<(), E>|
                    *c == old(self)@[prior2(old(self).grid_size(), old(self).grid_offset(), final(self).grid_offset(), p)] && *final(c) == final(self)@[p]
                        && #[trigger] call_ensures(reload, (prior2(old(self).grid_size(), old(self).grid_offset(), final(self).grid_offset(), p), p, c), res) && res is Ok,
            r is Err ==> exists|f: (i32, i32)|
                #![trigger enters2(old(self).grid_size(), old(self).grid_offset(), final(self).grid_offset(), f)]
                enters2(old(self).grid_size(), old(self).grid_offset(), final(self).grid_offset(), f) && old(self)@.contains_key(prior2(old(self).grid_size(), old(self).grid_offset(), final(self).grid_offset(), f)) && {
                    &&& exists|c: &mut T, res: Result<(), E>|
                        *c == old(self)@[prior2(old(self).grid_size(), old(self).grid_offset(), final(self).grid_offset(), f)] && *final(c) == final(self)@[f] && #[trigger] call_ensures(reload, (prior2(old(self).grid_size(), old(self).grid_offset(), final(self).grid_offset(), f), f, c), res) && res is Err && res->Err_0 == r->Err_0
                    &&& forall|p: (i32, i32)|
                        #![trigger enters2(old(self).grid_size(), old(self).grid_offset(), final(self).grid_offset(), p)]
                        enters2(old(self).grid_size(), old(self).grid_offset(), final(self).grid_offset(), p) && old(self)@.contains_key(prior2(old(self).grid_size(), old(self).grid_offset(), final(self).grid_offset(), p)) && reloads_before2(old(self).grid_size(), old(self).grid_offset(), final(self).grid_offset(), p, f) ==> exists|c: &mut T, res: Result<(), E>|
                            *c == old(self)@[prior2(old(self).grid_size(), old(self).grid_offset(), final(self).grid_offset(), p)] && *final(c) == final(self)@[p] && #[trigger] call_ensures(reload, (prior2(old(self).grid_size(), old(self).grid_offset(), final(self).grid_offset(), p), p, c), res) && res is Ok
                    &&& forall|p: (i32, i32)|
                        #![trigger enters2(old(self).grid_size(), old(self).grid_offset(), final(self).grid_offset(), p)]
                        enters2(old(self).grid_size(), old(self).grid_offset(), final(self).grid_offset(), p) && old(self)@.contains_key(prior2(old(self).grid_size(), old(self).grid_offset(), final(self).grid_offset(), p)) && p != f && !reloads_before2(old(self).grid_size(), old(self).grid_offset(), final(self).grid_offset(), p, f) ==> final(self)@[p] == old(self)@[prior2(old(self).grid_size(), old(self).grid_offset(), final(self).grid_offset(), p)]
                },
    {
        let (curx, cury) = self.grid_offset;
        let (ox, oy) = offset;
        let position = (curx + ox, cury + oy);
        let r = self.try_reposition(position, reload);
        assert(self.grid_offset() == position);
        r
    }

    /// Calls `f` with every position of the grid and a mutable reference to its value,
    /// row by row.
    pub fn iter_mut<F: FnMut((i32, i32), &mut T)>(&mut self, f: F)
        requires
            old(self).wf(),
            forall|a: (i32, i32), c: &mut T| call_requires(f, (a, c)),
        ensures
            final(self).wf(),
            final(self).grid_size() == old(self).grid_size(),
            final(self).grid_offset() == old(self).grid_offset(),
            forall|p: (i32, i32)| #[trigger] final(self)@.contains_key(p) <==> old(self)@.contains_key(p),
            forall|p: (i32, i32)|
                #![trigger old(self)@[p]]
                old(self)@.contains_key(p) ==> exists|c: &mut T| *c == old(self)@[p] && *final(c) == final(self)@[p] && #[trigger] call_ensures(f, (p, c), ()),
    {
        let ghost f0 = f;
        let ghost start = *self;
        let mut f = f;
        let b = self.bounds();
        let mut it = b.iter();
        let ghost pts = it.remaining();
        let mut i: usize = 0;
        proof {
            lemma_rows2(b.min.0 as int, b.max.0 as int, b.min.1 as int, b.max.1 as int);
            lemma_rows2_len(b.min.0 as int, b.max.0 as int, b.min.1 as int, b.max.1 as int);
            assert(pts.len() == self.grid_size().0 * self.grid_size().1) by (nonlinear_arith)
                requires
                    pts.len() == (b.max.1 - b.min.1) * (b.max.0 - b.min.0),
                    b.max.1 - b.min.1 == self.grid_size().1,
                    b.max.0 - b.min.0 == self.grid_size().0,
            ;
            assert(it.remaining() == pts.subrange(0, pts.len() as int));
        }
        loop
            invariant
                self.wf(),
                self.grid_size() == start.grid_size(),
                self.grid_offset() == start.grid_offset(),
                *old(self) == start,
                start.wf(),
                it.wf(),
                it.bounds() == b,
                pts == b.points(),
                forall|p: (i32, i32)| #[trigger] pts.contains(p) <==> start.in_bounds(p),
                sorted2(pts),
                pts.len() <= usize::MAX,
                0 <= i <= pts.len(),
                it.remaining() == pts.subrange(i as int, pts.len() as int),
                forall|p: (i32, i32)| #[trigger] self@.contains_key(p) <==> start@.contains_key(p),
                f == f0,
                forall|a: (i32, i32), c: &mut T| call_requires(f0, (a, c)),
                forall|k: int| i <= k < pts.len() && start@.contains_key(pts[k]) ==> #[trigger] self@[pts[k]] == start@[pts[k]],
                forall|k: int|
                    #![trigger pts[k]]
                    0 <= k < i && start@.contains_key(pts[k]) ==> exists|c: &mut T|
                        *c == start@[pts[k]] && *final(c) == self@[pts[k]] && #[trigger] call_ensures(f0, (pts[k], c), ()),
            ensures
                i == pts.len(),
            decreases pts.len() - i,
        {
            match it.next() {
                Some(p) => {
                    proof {
                        assert(pts[i as int] == p);
                        assert(pts.contains(p));
                        assert(self.in_bounds(p));
                    }
                    let index = self.offset_index(p).unwrap();
                    let ghost before = *self;
                    proof {
                        assert forall|q: (i32, i32)| #[trigger] self.in_bounds(q) && q != p implies slot2(self.size, self.wrap_offset, self.grid_offset, q) != index
                            && 0 <= slot2(self.size, self.wrap_offset, self.grid_offset, q) < self.cells@.len() by {
                            self.lemma_slot(q, p);
                        }
                    }
                    match &mut self.cells[index] {
                        Some(cell) => f(p, cell),
                        None => {},
                    }
                    proof {
                        assert forall|q: (i32, i32)| #[trigger] self@.contains_key(q) <==> before@.contains_key(q) by {
                            if self.in_bounds(q) && q != p {
                                assert(self.cells@[self.slot(q)] == before.cells@[before.slot(q)]);
                            }
                        }
                        assert forall|k: int| 0 <= k < pts.len() && k != i && before@.contains_key(pts[k]) implies #[trigger] self@[pts[k]] == before@[pts[k]] by {
                            let q = pts[k];
                            if k < i {
                                assert(before2(pts[k], pts[i as int]));
                            } else {
                                assert(before2(pts[i as int], pts[k]));
                            }
                            assert(q != p);
                            assert(pts.contains(q));
                            assert(self.in_bounds(q));
                            assert(self.cells@[self.slot(q)] == before.cells@[before.slot(q)]);
                        }
                        assert(before@.contains_key(p) ==> exists|c: &mut T| *c == before@[p] && *final(c) == self@[p] && #[trigger] call_ensures(f0, (p, c), ()));
                        assert(it.remaining() =~= pts.subrange(i + 1, pts.len() as int));
                    }
                    i = i + 1;
                },
                None => {
                    proof {
                        assert(pts.subrange(i as int, pts.len() as int).len() == 0);
                    }
                    break;
                },
            }
        }
        proof {
            assert forall|p: (i32, i32)| start@.contains_key(p) implies exists|c: &mut T|
                *c == start@[p] && *final(c) == self@[p] && #[trigger] call_ensures(f0, (p, c), ()) by {
                assert(start.in_bounds(p));
                assert(pts.contains(p));
                let k = choose|k: int| 0 <= k < pts.len() && pts[k] == p;
                assert(pts[k] == p);
            }
        }
    }

    /// Replace item at `coord` using `replace` function that takes as
    /// input the old value and returns the new value. This will swap the
    /// value in-place.
    pub fn replace_with<F: FnOnce(T) -> T>(&mut self, coord: (i32, i32), replace: F)
        requires
            old(self).wf(),
            old(self)@.contains_key(coord),
            call_requires(replace, (old(self)@[coord],)),
        ensures
            final(self).wf(),
            final(self).grid_size() == old(self).grid_size(),
            final(self).grid_offset() == old(self).grid_offset(),
            final(self)@.dom() == old(self)@.dom(),
            call_ensures(replace, (old(self)@[coord],), final(self)@[coord]),
            forall|p: (i32, i32)| old(self)@.contains_key(p) && p != coord ==> #[trigger] final(self)@[p] == old(self)@[p],
    {
        let index = self.offset_index(coord).unwrap();
        let old_value = self.cells[index].take();
        let v = match old_value {
            Some(v) => v,
            None => vstd::pervasive::unreached(),
        };
        let new_value = replace(v);
        self.cells.set(index, Some(new_value));
        proof {
            assert forall|p: (i32, i32)| self.in_bounds(p) && p != coord implies self.cells@[self.slot(p)] == old(self).cells@[old(self).slot(p)] by {
                self.lemma_slot(p, coord);
            }
            assert(self@.dom() =~= old(self)@.dom());
        }
    }

    /// Replace item at `coord` using [std::mem::replace] and then returns
    /// the old value.
    pub fn replace(&mut self, coord: (i32, i32), value: T) -> (r: T)
        requires
            old(self).wf(),
            old(self)@.contains_key(coord),
        ensures
            r == old(self)@[coord],
            final(self).wf(),
            final(self).grid_size() == old(self).grid_size(),
            final(self).grid_offset() == old(self).grid_offset(),
            final(self)@ == old(self)@.insert(coord, value),
    {
        let index = self.offset_index(coord).unwrap();
        let old_value = self.cells[index].take();
        self.cells.set(index, Some(value));
        proof {
            assert forall|p: (i32, i32)| self.in_bounds(p) && p != coord implies self.cells@[self.slot(p)] == old(self).cells@[old(self).slot(p)] by {
                self.lemma_slot(p, coord);
            }
            assert(self@ =~= old(self)@.insert(coord, value));
        }
        match old_value {
            Some(v) => v,
            None => vstd::pervasive::unreached(),
        }
    }

    /// Get a reference to the cell's value if it exists and the coord is in bounds, otherwise return `None`.
    pub fn get(&self, coord: (i32, i32)) -> (r: Option<&T>)
        requires
            self.wf(),
        ensures
            r is Some <==> self@.contains_key(coord),
            r matches Some(v) ==> *v == self@[coord],
    {
        match self.offset_index(coord) {
            Some(index) => match &self.cells[index] {
                Some(v) => Some(v),
                None => None,
            },
            None => None,
        }
    }

    /// Get a mutable reference to the cell's value if it exists and the coord is in bounds, otherwise return `None`.
    pub fn get_mut(&mut self, coord: (i32, i32)) -> (r: Option<&mut T>)
        requires
            old(self).wf(),
        ensures
            r is Some <==> old(self)@.contains_key(coord),
            final(self).wf(),
            final(self).grid_size() == old(self).grid_size(),
            final(self).grid_offset() == old(self).grid_offset(),
            final(self)@.dom() == old(self)@.dom(),
            r matches Some(v) ==> *v == old(self)@[coord] && final(self)@[coord] == *final(v),
            forall|p: (i32, i32)| old(self)@.contains_key(p) && p != coord ==> #[trigger] final(self)@[p] == old(self)@[p],
    {
        match self.offset_index(coord) {
            Some(index) => {
                proof {
                    assert forall|p: (i32, i32)| self.in_bounds(p) && p != coord implies #[trigger] slot2(self.size, self.wrap_offset, self.grid_offset, p) != index
                        && 0 <= slot2(self.size, self.wrap_offset, self.grid_offset, p) < self.cells@.len() by {
                        self.lemma_slot(p, coord);
                    }
                }
                match &mut self.cells[index] {
                    Some(v) => Some(v),
                    None => None,
                }
            },
            None => None,
        }
    }

    /// Set the cell's value, returning the old value in the process.
    /// Returns `None` and leaves the grid unchanged when `coord` is out of bounds.
    pub fn set(&mut self, coord: (i32, i32), value: T) -> (r: Option<T>)
        requires
            old(self).wf(),
        ensures
            final(self).wf(),
            final(self).grid_size() == old(self).grid_size(),
            final(self).grid_offset() == old(self).grid_offset(),
            old(self).in_bounds(coord) ==> final(self)@ == old(self)@.insert(coord, value),
            old(self)@.contains_key(coord) ==> r == Some(old(self)@[coord]),
            !old(self)@.contains_key(coord) ==> r is None,
            !old(self).in_bounds(coord) ==> final(self)@ == old(self)@,
            old(self).full() ==> final(self).full(),
    {
        match self.offset_index(coord) {
            Some(index) => {
                let r = self.cells[index].take();
                self.cells.set(index, Some(value));
                proof {
                    assert forall|p: (i32, i32)| self.in_bounds(p) && p != coord implies self.cells@[self.slot(p)] == old(self).cells@[old(self).slot(p)] by {
                        self.lemma_slot(p, coord);
                    }
                    assert(self@ =~= old(self)@.insert(coord, value));
                }
                r
            },
            None => None,
        }
    }

    /// Get the dimensions of the grid.
    pub fn size(&self) -> (r: (u32, u32))
        ensures
            r == self.grid_size(),
    {
        self.size
    }

    /// The size along the X axis.
    pub fn width(&self) -> (r: u32)
        ensures
            r == self.grid_size().0,
    {
        self.size.0
    }

    /// The size along the Y axis.
    pub fn height(&self) -> (r: u32)
        ensures
            r == self.grid_size().1,
    {
        self.size.1
    }

    /// Get the offset of the grid.
    pub fn offset(&self) -> (r: (i32, i32))
        ensures
            r == self.grid_offset(),
    {
        self.grid_offset
    }

    /// Get the minimum bound on the `X` axis.
    pub fn x_min(&self) -> (r: i32)
        ensures
            r == self.grid_offset().0,
    {
        self.grid_offset.0
    }

    /// Get the maximum bound on the `X` axis.
    pub fn x_max(&self) -> (r: i32)
        requires
            self.wf(),
        ensures
            r == self.grid_offset().0 + self.grid_size().0,
    {
        (self.grid_offset.0 as i64 + self.size.0 as i64) as i32
    }

    /// Get the minimum bound on the `Y` axis.
    pub fn y_min(&self) -> (r: i32)
        ensures
            r == self.grid_offset().1,
    {
        self.grid_offset.1
    }

    /// Get the maximum bound on the `Y` axis.
    pub fn y_max(&self) -> (r: i32)
        requires
            self.wf(),
        ensures
            r == self.grid_offset().1 + self.grid_size().1,
    {
        (self.grid_offset.1 as i64 + self.size.1 as i64) as i32
    }

    /// Get the bounds of the grid.
    pub fn bounds(&self) -> (r: Bounds2D)
        requires
            self.wf(),
        ensures
            r.min == self.grid_offset(),
            r.max == ((self.grid_offset().0 + self.grid_size().0) as i32, (self.grid_offset().1 + self.grid_size().1) as i32),
            forall|p: (i32, i32)| r.contains_spec(p) <==> self.in_bounds(p),
    {
        Bounds2D { min: (self.x_min(), self.y_min()), max: (self.x_max(), self.y_max()) }
    }

    /// This is equivalent to the area (width * height).
    pub fn len(&self) -> (r: usize)
        requires
            self.wf(),
        ensures
            r == self.grid_size().0 * self.grid_size().1,
    {
        self.size.0 as usize * self.size.1 as usize
    }

    /// The positions of the grid in row-major order.
    pub open spec fn bounds_points(&self) -> Seq<(i32, i32)> {
        rows2(
            self.grid_offset().0 as int,
            self.grid_offset().0 + self.grid_size().0,
            self.grid_offset().1 as int,
            self.grid_offset().1 + self.grid_size().1,
        )
    }

    /// Get an iterator over the cells in the grid, in row-major order.
    pub fn iter<'a>(&'a self) -> (r: RollGrid2DIterator<'a, T>)
        requires
            self.wf(),
            self.full(),
        ensures
            r.grid() == self,
            r.wf(),
            r.remaining() == self.bounds_points(),
    {
        let b = self.bounds();
        proof {
            lemma_rows2(b.min.0 as int, b.max.0 as int, b.min.1 as int, b.max.1 as int);
        }
        RollGrid2DIterator { grid: self, bounds_iter: b.iter() }
    }
}

impl<T: Copy> RollGrid2D<T> {
    /// Get a copy of the grid value.
    pub fn get_copy(&self, coord: (i32, i32)) -> (r: Option<T>)
        requires
            self.wf(),
        ensures
            r == (if self@.contains_key(coord) { Some(self@[coord]) } else { None::<T> }),
    {
        match self.get(coord) {
            Some(v) => Some(*v),
            None => None,
        }
    }
}

impl<T: Clone> RollGrid2D<T> {
    /// Get a clone of the grid value.
    pub fn get_clone(&self, coord: (i32, i32)) -> (r: Option<T>)
        requires
            self.wf(),
        ensures
            r is Some <==> self@.contains_key(coord),
            r matches Some(v) ==> cloned::<T>(self@[coord], v),
    {
        match self.get(coord) {
            Some(v) => Some(v.clone()),
            None => None,
        }
    }
}

impl<T: Default> RollGrid2D<T> {
    /// Create a new [RollGrid2D] with all the cells set to the default for `T`.
    ///
    /// `T::default` is called once for every position, also when `T` is zero-sized.
    pub fn new_default(width: u32, height: u32, grid_offset: (i32, i32)) -> (r: Self)
        requires
            width * height > 0,
            width * height <= usize::MAX,
            grid_offset.0 + width <= i32::MAX,
            grid_offset.1 + height <= i32::MAX,
        ensures
            r.wf(),
            r.full(),
            r.grid_size() == (width, height),
            r.grid_offset() == grid_offset,
            forall|p: (i32, i32)| r.in_bounds(p) ==> call_ensures(T::default, (), #[trigger] r@[p]),
    {
        Self::new(width, height, grid_offset, |p: (i32, i32)| -> (d: T) ensures call_ensures(T::default, (), d) { T::default() })
    }
}

impl RollGrid2D<()> {
    /// Creates a new grid of unit types.
    pub fn new_zst(width: u32, height: u32, grid_offset: (i32, i32)) -> (r: Self)
        requires
            width * height > 0,
            width * height <= usize::MAX,
            grid_offset.0 + width <= i32::MAX,
            grid_offset.1 + height <= i32::MAX,
        ensures
            r.wf(),
            r.full(),
            r.grid_size() == (width, height),
            r.grid_offset() == grid_offset,
            forall|p: (i32, i32)| r.in_bounds(p) ==> #[trigger] r@[p] == (),
    {
        Self::new(width, height, grid_offset, |p: (i32, i32)| ())
    }
}

impl<T: Clone> Clone for RollGrid2D<T> {
    /// Clones every cell of the grid.
    fn clone(&self) -> (r: Self)
        ensures
            self.wf() ==> r.wf(),
            r.grid_size() == self.grid_size(),
            r.grid_offset() == self.grid_offset(),
            self.wf() ==> forall|p: (i32, i32)| #[trigger] r@.contains_key(p) <==> self@.contains_key(p),
            self.wf() ==> forall|p: (i32, i32)| self@.contains_key(p) ==> cloned::<T>(self@[p], #[trigger] r@[p]),
    {
        let r = RollGrid2D {
            cells: clone_slots(&self.cells),
            size: self.size,
            wrap_offset: self.wrap_offset,
            grid_offset: self.grid_offset,
        };
        proof {
            if self.wf() {
                assert forall|p: (i32, i32)| #[trigger] self.in_bounds(p) implies 0 <= self.slot(p) < self.cells@.len() by {
                    self.lemma_slot(p, p);
                }
                assert forall|p: (i32, i32)| #[trigger] r@.contains_key(p) <==> self@.contains_key(p) by {
                    if self.in_bounds(p) {
                        assert(r.slot(p) == self.slot(p));
                    }
                }
            }
        }
        r
    }
}

/// Iterator over all cells in a [RollGrid2D].
pub struct RollGrid2DIterator<'a, T> {
    grid: &'a RollGrid2D<T>,
    bounds_iter: Bounds2DIter,
}

impl<'a, T> RollGrid2DIterator<'a, T> {
    /// The grid being iterated.
    pub closed spec fn grid(self) -> &'a RollGrid2D<T> {
        self.grid
    }

    /// The iterator's internal invariant.
    pub closed spec fn wf(self) -> bool {
        &&& self.grid.wf()
        &&& self.grid.full()
        &&& self.bounds_iter.wf()
        &&& forall|i: int| 0 <= i < self.bounds_iter.remaining().len() ==> self.grid.in_bounds(#[trigger] self.bounds_iter.remaining()[i])
    }

    /// The positions still to be visited, in order.
    pub closed spec fn remaining(self) -> Seq<(i32, i32)> {
        self.bounds_iter.remaining()
    }

    /// The number of cells still to be visited, as a lower and an upper bound.
    pub fn size_hint(&self) -> (r: (usize, Option<usize>))
        requires
            self.wf(),
            self.remaining().len() <= usize::MAX,
        ensures
            r == (self.remaining().len() as usize, Some(self.remaining().len() as usize)),
    {
        self.bounds_iter.size_hint()
    }

    /// Returns the next position and a reference to its value.
    pub fn next(&mut self) -> (r: Option<((i32, i32), &'a T)>)
        requires
            old(self).wf(),
        ensures
            final(self).wf(),
            final(self).grid() == old(self).grid(),
            old(self).remaining().len() == 0 ==> r is None && final(self).remaining() == old(self).remaining(),
            old(self).remaining().len() > 0 ==> final(self).remaining() == old(self).remaining().drop_first(),
            old(self).remaining().len() > 0 ==> (r matches Some((p, v)) && p == old(self).remaining()[0] && *v == old(self).grid()@[p]),
    {
        let next = self.bounds_iter.next();
        match next {
            Some(p) => {
                proof {
                    assert(old(self).bounds_iter.remaining()[0] == p);
                    assert forall|i: int| 0 <= i < self.bounds_iter.remaining().len() implies self.grid.in_bounds(#[trigger] self.bounds_iter.remaining()[i]) by {
                        assert(self.bounds_iter.remaining()[i] == old(self).bounds_iter.remaining()[i + 1]);
                    }
                }
                match self.grid.get(p) {
                    Some(v) => Some((p, v)),
                    None => vstd::pervasive::unreached(),
                }
            },
            None => None,
        }
    }
}

} // verus!
