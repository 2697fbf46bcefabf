use crate::bounds3d::{before3, box3, in_box3, lemma_box3, lemma_box3_len, plane3, row3, sorted3, Bounds3D, Bounds3DIter};
use crate::fixedarray::{clone_slots, in_grid3, index3, lemma_index3, lemma_position3, lemma_row_major, position3, FixedArray};
use crate::rollgrid2d::{congruent_in, lemma_axis_roll, lemma_mod_window, wrap_once};
use crate::{lemma_try_manager_stops_after, try_manager_stops, try_manager_failure, lemma_try_manager_stops, lemma_try_reload_step, lemma_try_unload_step, lemma_manager_runs, lemma_try_manager_runs, manager_runs, manager_step, try_manager_runs, try_manager_step, CellManage, ManagerCall, TryCellManage};
use vstd::prelude::*;

verus! {

/// Whether moving a grid of the given size from `src` to `dst` keeps part of it in
/// place (a roll): the move is shorter than the grid on every axis.
pub open spec fn rolls3(size: (u32, u32, u32), src: (i32, i32, i32), dst: (i32, i32, i32)) -> bool {
    &&& -(size.0 as int) < dst.0 - src.0 < size.0
    &&& -(size.1 as int) < dst.1 - src.1 < size.1
    &&& -(size.2 as int) < dst.2 - src.2 < size.2
}

/// The old position whose cell the new position `p` takes over when a grid of the given
/// size moves from `src` to `dst`. On a roll it is the position of the old grid congruent
/// to `p` (modulo the size); otherwise the cell at the same place relative to the offset.
pub open spec fn prior3(size: (u32, u32, u32), src: (i32, i32, i32), dst: (i32, i32, i32), p: (i32, i32, i32)) -> (i32, i32, i32) {
    if rolls3(size, src, dst) {
        (
            congruent_in(p.0 as int, src.0 as int, size.0 as int) as i32,
            congruent_in(p.1 as int, src.1 as int, size.1 as int) as i32,
            congruent_in(p.2 as int, src.2 as int, size.2 as int) as i32,
        )
    } else {
        ((src.0 + (p.0 - dst.0)) as i32, (src.1 + (p.1 - dst.1)) as i32, (src.2 + (p.2 - dst.2)) as i32)
    }
}

/// Whether `p` enters the grid when a grid of the given size moves from `src` to `dst`:
/// it lies in the new placement and not in the old one.
pub open spec fn enters3(size: (u32, u32, u32), src: (i32, i32, i32), dst: (i32, i32, i32), p: (i32, i32, i32)) -> bool {
    in_grid3(size, dst, p) && !in_grid3(size, src, p)
}

/// On a roll, the part of the new grid a position falls in, in the order in which the
/// parts are reloaded: `0` outside the old grid's `x` range, `1` inside it but outside
/// the old `z` range, `2` inside both but outside the old `y` range.
pub open spec fn reload_part3(size: (u32, u32, u32), src: (i32, i32, i32), p: (i32, i32, i32)) -> int {
    if !(src.0 <= p.0 < src.0 + size.0) {
        0
    } else if !(src.2 <= p.2 < src.2 + size.2) {
        1
    } else {
        2
    }
}

/// The order in which positions are reloaded on a roll: by part, then in iteration order.
pub open spec fn reload_before3(size: (u32, u32, u32), src: (i32, i32, i32), a: (i32, i32, i32), b: (i32, i32, i32)) -> bool {
    reload_part3(size, src, a) < reload_part3(size, src, b) || (reload_part3(size, src, a)
        == reload_part3(size, src, b) && before3(a, b))
}

/// The order in which the positions that enter a grid of the given size moving from `src`
/// to `dst` are reloaded: [reload_before3] on a roll, in iteration order otherwise.
pub open spec fn reloads_before3(size: (u32, u32, u32), src: (i32, i32, i32), dst: (i32, i32, i32), a: (i32, i32, i32), b: (i32, i32, i32)) -> bool {
    if rolls3(size, src, dst) {
        reload_before3(size, src, a, b)
    } else {
        before3(a, b)
    }
}

/// The reload pairs `(old position, new position)` for a sequence of new positions.
pub open spec fn reload_pairs3(size: (u32, u32, u32), src: (i32, i32, i32), dst: (i32, i32, i32), s: Seq<(i32, i32, i32)>) -> Seq<((i32, i32, i32), (i32, i32, i32))> {
    s.map_values(|p: (i32, i32, i32)| (prior3(size, src, dst, p), p))
}

/// Both placements of a grid of the given size fit in the `i32` range.
pub open spec fn placements_fit3(size: (u32, u32, u32), src: (i32, i32, i32), dst: (i32, i32, i32)) -> bool {
    &&& size.0 > 0
    &&& size.1 > 0
    &&& size.2 > 0
    &&& src.0 + size.0 <= i32::MAX
    &&& src.1 + size.1 <= i32::MAX
    &&& src.2 + size.2 <= i32::MAX
    &&& dst.0 + size.0 <= i32::MAX
    &&& dst.1 + size.1 <= i32::MAX
    &&& dst.2 + size.2 <= i32::MAX
}

/// Computes the old position whose cell the new position `p` takes over.
fn prior_position3(size: (u32, u32, u32), src: (i32, i32, i32), dst: (i32, i32, i32), rolls: bool, p: (i32, i32, i32)) -> (r: (i32, i32, i32))
    requires
        placements_fit3(size, src, dst),
        in_grid3(size, dst, p),
        rolls == rolls3(size, src, dst),
    ensures
        r == prior3(size, src, dst, p),
{
    let w = size.0 as i64;
    let h = size.1 as i64;
    let d = size.2 as i64;
    if rolls {
        let tx = p.0 as i64 - src.0 as i64;
        let ty = p.1 as i64 - src.1 as i64;
        let tz = p.2 as i64 - src.2 as i64;
        let wx = if tx < 0 { tx + w } else if tx >= w { tx - w } else { tx };
        let wy = if ty < 0 { ty + h } else if ty >= h { ty - h } else { ty };
        let wz = if tz < 0 { tz + d } else if tz >= d { tz - d } else { tz };
        proof {
            lemma_mod_window(tx as int, w as int);
            lemma_mod_window(ty as int, h as int);
            lemma_mod_window(tz as int, d as int);
        }
        ((src.0 as i64 + wx) as i32, (src.1 as i64 + wy) as i32, (src.2 as i64 + wz) as i32)
    } else {
        (
            (src.0 as i64 + (p.0 as i64 - dst.0 as i64)) as i32,
            (src.1 as i64 + (p.1 as i64 - dst.1 as i64)) as i32,
            (src.2 as i64 + (p.2 as i64 - dst.2 as i64)) as i32,
        )
    }
}

/// Appends the reload pairs for the box `[x0, x1) x [y0, y1) x [z0, z1)` of the new grid,
/// in iteration order.
fn push_reload_box3(
    plan: &mut Vec<((i32, i32, i32), (i32, i32, i32))>,
    size: (u32, u32, u32),
    src: (i32, i32, i32),
    dst: (i32, i32, i32),
    rolls: bool,
    x0: i64,
    x1: i64,
    y0: i64,
    y1: i64,
    z0: i64,
    z1: i64,
)
    requires
        placements_fit3(size, src, dst),
        rolls == rolls3(size, src, dst),
        dst.0 <= x0,
        x1 <= dst.0 + size.0,
        dst.1 <= y0,
        y1 <= dst.1 + size.1,
        dst.2 <= z0,
        z1 <= dst.2 + size.2,
    ensures
        final(plan)@ == old(plan)@ + reload_pairs3(size, src, dst, box3(x0 as int, x1 as int, y0 as int, y1 as int, z0 as int, z1 as int)),
{
    let ghost base = plan@;
    let mut y = y0;
    if y1 <= y0 {
        assert(box3(x0 as int, x1 as int, y0 as int, y1 as int, z0 as int, z1 as int) =~= Seq::<(i32, i32, i32)>::empty());
        assert(plan@ =~= base + reload_pairs3(size, src, dst, box3(x0 as int, x1 as int, y0 as int, y1 as int, z0 as int, z1 as int)));
        return;
    }
    while y < y1
        invariant
            placements_fit3(size, src, dst),
            rolls == rolls3(size, src, dst),
            dst.0 <= x0,
            x1 <= dst.0 + size.0,
            dst.1 <= y0 <= y <= y1,
            y1 <= dst.1 + size.1,
            dst.2 <= z0,
            z1 <= dst.2 + size.2,
            plan@ == base + reload_pairs3(size, src, dst, box3(x0 as int, x1 as int, y0 as int, y as int, z0 as int, z1 as int)),
        decreases y1 - y,
    {
        let ghost before_plane = plan@;
        let mut z = z0;
        if z1 > z0 {
            while z < z1
                invariant
                    placements_fit3(size, src, dst),
                    rolls == rolls3(size, src, dst),
                    dst.0 <= x0,
                    x1 <= dst.0 + size.0,
                    dst.1 <= y0 <= y < y1,
                    y1 <= dst.1 + size.1,
                    dst.2 <= z0 <= z <= z1,
                    z1 <= dst.2 + size.2,
                    plan@ == before_plane + reload_pairs3(size, src, dst, plane3(x0 as int, x1 as int, y as int, z0 as int, z as int)),
                decreases z1 - z,
            {
                let ghost before_row = plan@;
                let mut x = x0;
                if x1 > x0 {
                    while x < x1
                        invariant
                            placements_fit3(size, src, dst),
                            rolls == rolls3(size, src, dst),
                            dst.0 <= x0 <= x <= x1,
                            x1 <= dst.0 + size.0,
                            dst.1 <= y0 <= y < y1,
                            y1 <= dst.1 + size.1,
                            dst.2 <= z0 <= z < z1,
                            z1 <= dst.2 + size.2,
                            plan@ == before_row + reload_pairs3(size, src, dst, row3(x0 as int, x as int, y as int, z as int)),
                        decreases x1 - x,
                    {
                        let p = (x as i32, y as i32, z as i32);
                        let prior = prior_position3(size, src, dst, rolls, p);
                        plan.push((prior, p));
                        proof {
                            assert(row3(x0 as int, x + 1, y as int, z as int) =~= row3(x0 as int, x as int, y as int, z as int).push(p));
                            assert(reload_pairs3(size, src, dst, row3(x0 as int, x + 1, y as int, z as int)) =~= reload_pairs3(size, src, dst, row3(x0 as int, x as int, y as int, z as int)).push((prior, p)));
                        }
                        x = x + 1;
                    }
                }
                proof {
                    let r = plane3(x0 as int, x1 as int, y as int, z0 as int, z as int);
                    let row = row3(x0 as int, x1 as int, y as int, z as int);
                    if x1 <= x0 {
                        assert(row3(x0 as int, x as int, y as int, z as int) =~= row);
                    }
                    assert(plane3(x0 as int, x1 as int, y as int, z0 as int, z + 1) == r + row);
                    assert(reload_pairs3(size, src, dst, r + row) =~= reload_pairs3(size, src, dst, r) + reload_pairs3(size, src, dst, row));
                }
                z = z + 1;
            }
        }
        proof {
            let b = box3(x0 as int, x1 as int, y0 as int, y as int, z0 as int, z1 as int);
            let pl = plane3(x0 as int, x1 as int, y as int, z0 as int, z1 as int);
            if z1 <= z0 {
                assert(plane3(x0 as int, x1 as int, y as int, z0 as int, z as int) =~= pl);
            }
            assert(box3(x0 as int, x1 as int, y0 as int, y + 1, z0 as int, z1 as int) == b + pl);
            assert(reload_pairs3(size, src, dst, b + pl) =~= reload_pairs3(size, src, dst, b) + reload_pairs3(size, src, dst, pl));
        }
        y = y + 1;
    }
}

/// The cells reloaded when a grid of the given size moves from `src` to `dst`, as
/// `(old position, new position)` pairs in the order in which they are reloaded.
///
/// Every position of the new grid that is not in the old grid appears exactly once,
/// paired with the old position whose cell it takes over. On a roll the slab outside the
/// old `x` range is reloaded first, then the slab outside the old `z` range, then the slab
/// outside the old `y` range, each in iteration order (`x` fastest, then `z`, then `y`);
/// otherwise the whole new grid is reloaded in iteration order.
#[verifier::rlimit(80)]
#[verifier::spinoff_prover]
pub fn reposition_plan3(size: (u32, u32, u32), src: (i32, i32, i32), dst: (i32, i32, i32)) -> (plan: Vec<((i32, i32, i32), (i32, i32, i32))>)
    requires
        placements_fit3(size, src, dst),
    ensures
        forall|k: int| 0 <= k < plan@.len() ==> {
            &&& in_grid3(size, dst, (#[trigger] plan@[k]).1)
            &&& !in_grid3(size, src, plan@[k].1)
            &&& plan@[k].0 == prior3(size, src, dst, plan@[k].1)
        },
        forall|p: (i32, i32, i32)| in_grid3(size, dst, p) && !in_grid3(size, src, p) ==> exists|k: int| 0 <= k < plan@.len() && (#[trigger] plan@[k]).1 == p,
        rolls3(size, src, dst) ==> forall|i: int, j: int| 0 <= i < j < plan@.len() ==> reload_before3(size, src, (#[trigger] plan@[i]).1, (#[trigger] plan@[j]).1),
        !rolls3(size, src, dst) ==> forall|i: int, j: int| 0 <= i < j < plan@.len() ==> before3((#[trigger] plan@[i]).1, (#[trigger] plan@[j]).1),
        forall|i: int, j: int| 0 <= i < j < plan@.len() ==> (#[trigger] plan@[i]).1 != (#[trigger] plan@[j]).1,
{
    let w = size.0 as i64;
    let h = size.1 as i64;
    let d = size.2 as i64;
    let (ox, oy, oz) = (src.0 as i64, src.1 as i64, src.2 as i64);
    let (nx, ny, nz) = (dst.0 as i64, dst.1 as i64, dst.2 as i64);
    let dx = nx - ox;
    let dy = ny - oy;
    let dz = nz - oz;
    let rolls = -w < dx && dx < w && -h < dy && dy < h && -d < dz && dz < d;
    let mut plan: Vec<((i32, i32, i32), (i32, i32, i32))> = Vec::new();
    if rolls {
        // For each axis, the coordinates of the new grid that were not in the old grid,
        // and the ones that were.
        let (out_x0, out_x1, in_x0, in_x1) = if dx >= 0 {
            (ox + w, nx + w, nx, ox + w)
        } else {
            (nx, ox, ox, nx + w)
        };
        let (out_y0, out_y1, in_y0, in_y1) = if dy >= 0 {
            (oy + h, ny + h, ny, oy + h)
        } else {
            (ny, oy, oy, ny + h)
        };
        let (out_z0, out_z1, in_z0, in_z1) = if dz >= 0 {
            (oz + d, nz + d, nz, oz + d)
        } else {
            (nz, oz, oz, nz + d)
        };
        push_reload_box3(&mut plan, size, src, dst, rolls, out_x0, out_x1, ny, ny + h, nz, nz + d);
        push_reload_box3(&mut plan, size, src, dst, rolls, in_x0, in_x1, ny, ny + h, out_z0, out_z1);
        push_reload_box3(&mut plan, size, src, dst, rolls, in_x0, in_x1, out_y0, out_y1, in_z0, in_z1);
        proof {
            let ra = box3(out_x0 as int, out_x1 as int, ny as int, ny + h, nz as int, nz + d);
            let rb = box3(in_x0 as int, in_x1 as int, ny as int, ny + h, out_z0 as int, out_z1 as int);
            let rc = box3(in_x0 as int, in_x1 as int, out_y0 as int, out_y1 as int, in_z0 as int, in_z1 as int);
            lemma_box3(out_x0 as int, out_x1 as int, ny as int, ny + h, nz as int, nz + d);
            lemma_box3(in_x0 as int, in_x1 as int, ny as int, ny + h, out_z0 as int, out_z1 as int);
            lemma_box3(in_x0 as int, in_x1 as int, out_y0 as int, out_y1 as int, in_z0 as int, in_z1 as int);
            let s = ra + rb + rc;
            assert(plan@ =~= reload_pairs3(size, src, dst, s));
            assert forall|k: int| 0 <= k < s.len() implies {
                &&& in_grid3(size, dst, #[trigger] s[k])
                &&& !in_grid3(size, src, s[k])
                &&& (k < ra.len() ==> reload_part3(size, src, s[k]) == 0 && s[k] == ra[k])
                &&& (ra.len() <= k < ra.len() + rb.len() ==> reload_part3(size, src, s[k]) == 1 && s[k] == rb[k - ra.len()])
                &&& (ra.len() + rb.len() <= k ==> reload_part3(size, src, s[k]) == 2 && s[k] == rc[k - ra.len() - rb.len()])
            } by {
                if k < ra.len() {
                    assert(s[k] == ra[k]);
                } else if k < ra.len() + rb.len() {
                    assert(s[k] == rb[k - ra.len()]);
                } else {
                    assert(s[k] == rc[k - ra.len() - rb.len()]);
                }
            }
            assert forall|q: (i32, i32, i32)| in_grid3(size, dst, q) && !in_grid3(size, src, q) implies exists|k: int| 0 <= k < plan@.len() && (#[trigger] plan@[k]).1 == q by {
                let part = reload_part3(size, src, q);
                if part == 0 {
                    assert(ra.contains(q));
                    let k = choose|k: int| 0 <= k < ra.len() && ra[k] == q;
                    assert(s[k] == q);
                    assert(plan@[k].1 == q);
                } else if part == 1 {
                    assert(rb.contains(q));
                    let k = choose|k: int| 0 <= k < rb.len() && rb[k] == q;
                    assert(s[ra.len() + k] == q);
                    assert(plan@[ra.len() + k].1 == q);
                } else {
                    assert(rc.contains(q));
                    let k = choose|k: int| 0 <= k < rc.len() && rc[k] == q;
                    assert(s[ra.len() + rb.len() + k] == q);
                    assert(plan@[ra.len() + rb.len() + k].1 == q);
                }
            }
            assert forall|i: int, j: int| 0 <= i < j < plan@.len() implies reload_before3(size, src, (#[trigger] plan@[i]).1, (#[trigger] plan@[j]).1) by {
                assert(plan@[i].1 == s[i] && plan@[j].1 == s[j]);
                if j < ra.len() {
                    assert(before3(ra[i], ra[j]));
                } else if ra.len() <= i && j < ra.len() + rb.len() {
                    assert(before3(rb[i - ra.len()], rb[j - ra.len()]));
                } else if ra.len() + rb.len() <= i {
                    assert(before3(rc[i - ra.len() - rb.len()], rc[j - ra.len() - rb.len()]));
                }
            }
        }
    } else {
        push_reload_box3(&mut plan, size, src, dst, rolls, nx, nx + w, ny, ny + h, nz, nz + d);
        proof {
            let s = box3(nx as int, nx + w, ny as int, ny + h, nz as int, nz + d);
            lemma_box3(nx as int, nx + w, ny as int, ny + h, nz as int, nz + d);
            assert(plan@ =~= reload_pairs3(size, src, dst, s));
            assert forall|k: int| 0 <= k < plan@.len() implies {
                &&& in_grid3(size, dst, (#[trigger] plan@[k]).1)
                &&& !in_grid3(size, src, plan@[k].1)
                &&& plan@[k].0 == prior3(size, src, dst, plan@[k].1)
            } by {
                assert(plan@[k].1 == s[k]);
            }
            assert forall|q: (i32, i32, i32)| in_grid3(size, dst, q) && !in_grid3(size, src, q) implies exists|k: int| 0 <= k < plan@.len() && (#[trigger] plan@[k]).1 == q by {
                assert(s.contains(q));
                let k = choose|k: int| 0 <= k < s.len() && s[k] == q;
                assert(plan@[k].1 == q);
            }
            assert forall|i: int, j: int| 0 <= i < j < plan@.len() implies before3((#[trigger] plan@[i]).1, (#[trigger] plan@[j]).1) by {
                assert(plan@[i].1 == s[i] && plan@[j].1 == s[j]);
            }
        }
    }
    plan
}

/// A grid of the given size placed at `offset` fits in the `i32` range and is not empty.
pub open spec fn placement_fits3(size: (u32, u32, u32), offset: (i32, i32, i32)) -> bool {
    &&& size.0 > 0
    &&& size.1 > 0
    &&& size.2 > 0
    &&& offset.0 + size.0 <= i32::MAX
    &&& offset.1 + size.1 <= i32::MAX
    &&& offset.2 + size.2 <= i32::MAX
}

/// Whether two placed grids share a position.
pub open spec fn overlaps3(a_size: (u32, u32, u32), a: (i32, i32, i32), b_size: (u32, u32, u32), b: (i32, i32, i32)) -> bool {
    &&& a.0 < b.0 + b_size.0
    &&& b.0 < a.0 + a_size.0
    &&& a.1 < b.1 + b_size.1
    &&& b.1 < a.1 + a_size.1
    &&& a.2 < b.2 + b_size.2
    &&& b.2 < a.2 + a_size.2
}

/// When a grid is resized onto the placement `dst`, the part of the old grid a leaving
/// position falls in, in the order in which the parts are unloaded: `0` above the new
/// grid's `y` range, `1` below it, then within that range `2` beyond its `z` range, `3`
/// before it, then within both `4` beyond its `x` range and `5` before it.
pub open spec fn unload_part3(dst_size: (u32, u32, u32), dst: (i32, i32, i32), p: (i32, i32, i32)) -> int {
    if p.1 >= dst.1 + dst_size.1 {
        0
    } else if p.1 < dst.1 {
        1
    } else if p.2 >= dst.2 + dst_size.2 {
        2
    } else if p.2 < dst.2 {
        3
    } else if p.0 >= dst.0 + dst_size.0 {
        4
    } else {
        5
    }
}

/// The order in which positions are unloaded when the grids overlap: by part, then in
/// iteration order.
pub open spec fn unload_before3(dst_size: (u32, u32, u32), dst: (i32, i32, i32), a: (i32, i32, i32), b: (i32, i32, i32)) -> bool {
    unload_part3(dst_size, dst, a) < unload_part3(dst_size, dst, b) || (unload_part3(dst_size, dst, a)
        == unload_part3(dst_size, dst, b) && before3(a, b))
}

/// Appends the points of the box `[x0, x1) x [y0, y1) x [z0, z1)` in iteration order.
fn push_box3(out: &mut Vec<(i32, i32, i32)>, x0: i64, x1: i64, y0: i64, y1: i64, z0: i64, z1: i64)
    requires
        i32::MIN <= x0,
        x1 <= i32::MAX + 1,
        i32::MIN <= y0,
        y1 <= i32::MAX + 1,
        i32::MIN <= z0,
        z1 <= i32::MAX + 1,
    ensures
        final(out)@ == old(out)@ + box3(x0 as int, x1 as int, y0 as int, y1 as int, z0 as int, z1 as int),
{
    let ghost base = out@;
    if y1 <= y0 {
        assert(box3(x0 as int, x1 as int, y0 as int, y1 as int, z0 as int, z1 as int) =~= Seq::<(i32, i32, i32)>::empty());
        assert(out@ =~= base + box3(x0 as int, x1 as int, y0 as int, y1 as int, z0 as int, z1 as int));
        return;
    }
    let mut y = y0;
    while y < y1
        invariant
            i32::MIN <= x0,
            x1 <= i32::MAX + 1,
            i32::MIN <= y0 <= y <= y1,
            y1 <= i32::MAX + 1,
            i32::MIN <= z0,
            z1 <= i32::MAX + 1,
            out@ == base + box3(x0 as int, x1 as int, y0 as int, y as int, z0 as int, z1 as int),
        decreases y1 - y,
    {
        let ghost before_plane = out@;
        let mut z = z0;
        if z1 > z0 {
            while z < z1
                invariant
                    i32::MIN <= x0,
                    x1 <= i32::MAX + 1,
                    i32::MIN <= y0 <= y < y1,
                    y1 <= i32::MAX + 1,
                    i32::MIN <= z0 <= z <= z1,
                    z1 <= i32::MAX + 1,
                    out@ == before_plane + plane3(x0 as int, x1 as int, y as int, z0 as int, z as int),
                decreases z1 - z,
            {
                let ghost before_row = out@;
                let mut x = x0;
                if x1 > x0 {
                    while x < x1
                        invariant
                            i32::MIN <= x0 <= x <= x1,
                            x1 <= i32::MAX + 1,
                            i32::MIN <= y0 <= y < y1,
                            y1 <= i32::MAX + 1,
                            i32::MIN <= z0 <= z < z1,
                            z1 <= i32::MAX + 1,
                            out@ == before_row + row3(x0 as int, x as int, y as int, z as int),
                        decreases x1 - x,
                    {
                        out.push((x as i32, y as i32, z as i32));
                        proof {
                            assert(row3(x0 as int, x + 1, y as int, z as int) =~= row3(x0 as int, x as int, y as int, z as int).push((x as i32, y as i32, z as i32)));
                        }
                        x = x + 1;
                    }
                }
                proof {
                    if x1 <= x0 {
                        assert(row3(x0 as int, x as int, y as int, z as int) =~= row3(x0 as int, x1 as int, y as int, z as int));
                    }
                    assert(plane3(x0 as int, x1 as int, y as int, z0 as int, z + 1) == plane3(x0 as int, x1 as int, y as int, z0 as int, z as int) + row3(x0 as int, x1 as int, y as int, z as int));
                }
                z = z + 1;
            }
        }
        proof {
            if z1 <= z0 {
                assert(plane3(x0 as int, x1 as int, y as int, z0 as int, z as int) =~= plane3(x0 as int, x1 as int, y as int, z0 as int, z1 as int));
            }
            assert(box3(x0 as int, x1 as int, y0 as int, y + 1, z0 as int, z1 as int) == box3(x0 as int, x1 as int, y0 as int, y as int, z0 as int, z1 as int) + plane3(x0 as int, x1 as int, y as int, z0 as int, z1 as int));
        }
        y = y + 1;
    }
}

/// The boxes of the old grid that are unloaded, in order, when the grids overlap.
fn unload_boxes3(src_size: (u32, u32, u32), src: (i32, i32, i32), dst_size: (u32, u32, u32), dst: (i32, i32, i32)) -> (r: [(i64, i64, i64, i64, i64, i64); 6])
    requires
        placement_fits3(src_size, src),
        placement_fits3(dst_size, dst),
        overlaps3(src_size, src, dst_size, dst),
    ensures
        forall|k: int| 0 <= k < 6 ==> {
            &&& i32::MIN <= (#[trigger] r[k]).0
            &&& r[k].1 <= i32::MAX + 1
            &&& i32::MIN <= r[k].2
            &&& r[k].3 <= i32::MAX + 1
            &&& i32::MIN <= r[k].4
            &&& r[k].5 <= i32::MAX + 1
        },
        forall|k: int, p: (i32, i32, i32)| 0 <= k < 6 && #[trigger] in_box3(r[k].0 as int, r[k].1 as int, r[k].2 as int, r[k].3 as int, r[k].4 as int, r[k].5 as int, p) ==> {
            &&& in_grid3(src_size, src, p)
            &&& !in_grid3(dst_size, dst, p)
            &&& unload_part3(dst_size, dst, p) == k
        },
        forall|p: (i32, i32, i32)| in_grid3(src_size, src, p) && !in_grid3(dst_size, dst, p) ==> {
            let k = unload_part3(dst_size, dst, p);
            in_box3(r[k].0 as int, r[k].1 as int, r[k].2 as int, r[k].3 as int, r[k].4 as int, r[k].5 as int, p)
        },
{
    let (sx0, sy0, sz0) = (src.0 as i64, src.1 as i64, src.2 as i64);
    let (sx1, sy1, sz1) = (sx0 + src_size.0 as i64, sy0 + src_size.1 as i64, sz0 + src_size.2 as i64);
    let (dx0, dy0, dz0) = (dst.0 as i64, dst.1 as i64, dst.2 as i64);
    let (dx1, dy1, dz1) = (dx0 + dst_size.0 as i64, dy0 + dst_size.1 as i64, dz0 + dst_size.2 as i64);
    let ky0 = if dy0 > sy0 { dy0 } else { sy0 };
    let ky1 = if dy1 < sy1 { dy1 } else { sy1 };
    let kz0 = if dz0 > sz0 { dz0 } else { sz0 };
    let kz1 = if dz1 < sz1 { dz1 } else { sz1 };
    [
        (sx0, sx1, dy1, sy1, sz0, sz1),
        (sx0, sx1, sy0, dy0, sz0, sz1),
        (sx0, sx1, ky0, ky1, dz1, sz1),
        (sx0, sx1, ky0, ky1, sz0, dz0),
        (dx1, sx1, ky0, ky1, kz0, kz1),
        (sx0, dx0, ky0, ky1, kz0, kz1),
    ]
}

/// The positions unloaded when a grid placed at `src` is resized onto the placement `dst`,
/// in the order in which they are unloaded.
///
/// Every position of the old grid that is not in the new grid appears exactly once. When
/// the grids overlap, the slabs above and below the new grid's `y` range are unloaded
/// first, then the slabs beyond and before its `z` range, then those beyond and before
/// its `x` range, each in iteration order; otherwise the whole old grid is unloaded in
/// iteration order.
#[verifier::rlimit(80)]
#[verifier::spinoff_prover]
pub fn unload_plan3(src_size: (u32, u32, u32), src: (i32, i32, i32), dst_size: (u32, u32, u32), dst: (i32, i32, i32)) -> (plan: Vec<(i32, i32, i32)>)
    requires
        placement_fits3(src_size, src),
        placement_fits3(dst_size, dst),
    ensures
        forall|k: int| 0 <= k < plan@.len() ==> in_grid3(src_size, src, #[trigger] plan@[k]) && !in_grid3(dst_size, dst, plan@[k]),
        forall|p: (i32, i32, i32)| in_grid3(src_size, src, p) && !in_grid3(dst_size, dst, p) ==> plan@.contains(p),
        overlaps3(src_size, src, dst_size, dst) ==> forall|i: int, j: int| 0 <= i < j < plan@.len() ==> unload_before3(dst_size, dst, #[trigger] plan@[i], #[trigger] plan@[j]),
        !overlaps3(src_size, src, dst_size, dst) ==> sorted3(plan@),
        forall|i: int, j: int| 0 <= i < j < plan@.len() ==> #[trigger] plan@[i] != #[trigger] plan@[j],
{
    let (sx0, sy0, sz0) = (src.0 as i64, src.1 as i64, src.2 as i64);
    let (sx1, sy1, sz1) = (sx0 + src_size.0 as i64, sy0 + src_size.1 as i64, sz0 + src_size.2 as i64);
    let (dx0, dy0, dz0) = (dst.0 as i64, dst.1 as i64, dst.2 as i64);
    let (dx1, dy1, dz1) = (dx0 + dst_size.0 as i64, dy0 + dst_size.1 as i64, dz0 + dst_size.2 as i64);
    let mut plan: Vec<(i32, i32, i32)> = Vec::new();
    if sx0 < dx1 && dx0 < sx1 && sy0 < dy1 && dy0 < sy1 && sz0 < dz1 && dz0 < sz1 {
        let boxes = unload_boxes3(src_size, src, dst_size, dst);
        let ghost bx = boxes@;
        let ghost parts = Seq::new(6, |k: int| box3(bx[k].0 as int, bx[k].1 as int, bx[k].2 as int, bx[k].3 as int, bx[k].4 as int, bx[k].5 as int));
        let b0 = boxes[0];
        push_box3(&mut plan, b0.0, b0.1, b0.2, b0.3, b0.4, b0.5);
        let b1 = boxes[1];
        push_box3(&mut plan, b1.0, b1.1, b1.2, b1.3, b1.4, b1.5);
        let b2 = boxes[2];
        push_box3(&mut plan, b2.0, b2.1, b2.2, b2.3, b2.4, b2.5);
        let b3 = boxes[3];
        push_box3(&mut plan, b3.0, b3.1, b3.2, b3.3, b3.4, b3.5);
        let b4 = boxes[4];
        push_box3(&mut plan, b4.0, b4.1, b4.2, b4.3, b4.4, b4.5);
        let b5 = boxes[5];
        push_box3(&mut plan, b5.0, b5.1, b5.2, b5.3, b5.4, b5.5);
        proof {
            assert forall|k: int| 0 <= k < 6 implies {
                &&& forall|p: (i32, i32, i32)| #[trigger] parts[k].contains(p) <==> in_box3(bx[k].0 as int, bx[k].1 as int, bx[k].2 as int, bx[k].3 as int, bx[k].4 as int, bx[k].5 as int, p)
                &&& sorted3(parts[k])
                &&& forall|i: int| 0 <= i < parts[k].len() ==> in_box3(bx[k].0 as int, bx[k].1 as int, bx[k].2 as int, bx[k].3 as int, bx[k].4 as int, bx[k].5 as int, #[trigger] parts[k][i])
            } by {
                lemma_box3(bx[k].0 as int, bx[k].1 as int, bx[k].2 as int, bx[k].3 as int, bx[k].4 as int, bx[k].5 as int);
            }
            assert(plan@ =~= parts[0] + parts[1] + parts[2] + parts[3] + parts[4] + parts[5]);
            lemma_concat6_parts(src_size, src, dst_size, dst, bx, parts, plan@);
        }
    } else {
        push_box3(&mut plan, sx0, sx1, sy0, sy1, sz0, sz1);
        proof {
            lemma_box3(sx0 as int, sx1 as int, sy0 as int, sy1 as int, sz0 as int, sz1 as int);
            assert(plan@ =~= box3(sx0 as int, sx1 as int, sy0 as int, sy1 as int, sz0 as int, sz1 as int));
        }
    }
    plan
}

/// The index at which the `k`-th of the concatenated parts starts.
spec fn part_start3(parts: Seq<Seq<(i32, i32, i32)>>, k: int) -> int {
    if k <= 0 {
        0
    } else if k == 1 {
        parts[0].len() as int
    } else if k == 2 {
        (parts[0].len() + parts[1].len()) as int
    } else if k == 3 {
        (parts[0].len() + parts[1].len() + parts[2].len()) as int
    } else if k == 4 {
        (parts[0].len() + parts[1].len() + parts[2].len() + parts[3].len()) as int
    } else if k == 5 {
        (parts[0].len() + parts[1].len() + parts[2].len() + parts[3].len() + parts[4].len()) as int
    } else {
        (parts[0].len() + parts[1].len() + parts[2].len() + parts[3].len() + parts[4].len() + parts[5].len()) as int
    }
}

/// The part of the concatenation that index `i` falls in.
spec fn part_index3(parts: Seq<Seq<(i32, i32, i32)>>, i: int) -> int {
    if i < part_start3(parts, 1) {
        0
    } else if i < part_start3(parts, 2) {
        1
    } else if i < part_start3(parts, 3) {
        2
    } else if i < part_start3(parts, 4) {
        3
    } else if i < part_start3(parts, 5) {
        4
    } else {
        5
    }
}

/// The concatenation of the six unload boxes lists exactly the leaving positions, ordered
/// by part and then in iteration order.
proof fn lemma_concat6_parts(
    src_size: (u32, u32, u32),
    src: (i32, i32, i32),
    dst_size: (u32, u32, u32),
    dst: (i32, i32, i32),
    bx: Seq<(i64, i64, i64, i64, i64, i64)>,
    parts: Seq<Seq<(i32, i32, i32)>>,
    plan: Seq<(i32, i32, i32)>,
)
    requires
        bx.len() == 6,
        parts.len() == 6,
        plan == parts[0] + parts[1] + parts[2] + parts[3] + parts[4] + parts[5],
        forall|k: int| 0 <= k < 6 ==> {
            &&& forall|p: (i32, i32, i32)| #[trigger] parts[k].contains(p) <==> in_box3(bx[k].0 as int, bx[k].1 as int, bx[k].2 as int, bx[k].3 as int, bx[k].4 as int, bx[k].5 as int, p)
            &&& sorted3(parts[k])
            &&& forall|i: int| 0 <= i < parts[k].len() ==> in_box3(bx[k].0 as int, bx[k].1 as int, bx[k].2 as int, bx[k].3 as int, bx[k].4 as int, bx[k].5 as int, #[trigger] parts[k][i])
        },
        forall|k: int, p: (i32, i32, i32)| 0 <= k < 6 && #[trigger] in_box3(bx[k].0 as int, bx[k].1 as int, bx[k].2 as int, bx[k].3 as int, bx[k].4 as int, bx[k].5 as int, p) ==> {
            &&& in_grid3(src_size, src, p)
            &&& !in_grid3(dst_size, dst, p)
            &&& unload_part3(dst_size, dst, p) == k
        },
        forall|p: (i32, i32, i32)| in_grid3(src_size, src, p) && !in_grid3(dst_size, dst, p) ==> {
            let k = unload_part3(dst_size, dst, p);
            in_box3(bx[k].0 as int, bx[k].1 as int, bx[k].2 as int, bx[k].3 as int, bx[k].4 as int, bx[k].5 as int, p)
        },
    ensures
        forall|k: int| 0 <= k < plan.len() ==> in_grid3(src_size, src, #[trigger] plan[k]) && !in_grid3(dst_size, dst, plan[k]),
        forall|p: (i32, i32, i32)| in_grid3(src_size, src, p) && !in_grid3(dst_size, dst, p) ==> plan.contains(p),
        forall|i: int, j: int| 0 <= i < j < plan.len() ==> unload_before3(dst_size, dst, #[trigger] plan[i], #[trigger] plan[j]),
{
    assert(part_start3(parts, 6) == plan.len());
    assert forall|i: int| 0 <= i < plan.len() implies {
        let k = part_index3(parts, i);
        &&& 0 <= k < 6
        &&& part_start3(parts, k) <= i < part_start3(parts, k + 1)
        &&& plan[i] == parts[k][i - part_start3(parts, k)]
        &&& in_grid3(src_size, src, #[trigger] plan[i])
        &&& !in_grid3(dst_size, dst, plan[i])
        &&& unload_part3(dst_size, dst, plan[i]) == k
    } by {
        let k = part_index3(parts, i);
        assert(plan[i] == parts[k][i - part_start3(parts, k)]);
        assert(in_box3(bx[k].0 as int, bx[k].1 as int, bx[k].2 as int, bx[k].3 as int, bx[k].4 as int, bx[k].5 as int, parts[k][i - part_start3(parts, k)]));
    }
    assert forall|p: (i32, i32, i32)| in_grid3(src_size, src, p) && !in_grid3(dst_size, dst, p) implies plan.contains(p) by {
        let k = unload_part3(dst_size, dst, p);
        assert(parts[k].contains(p));
        let m = choose|m: int| 0 <= m < parts[k].len() && parts[k][m] == p;
        let i = part_start3(parts, k) + m;
        assert(part_index3(parts, i) == k);
        assert(plan[i] == p);
    }
    assert forall|i: int, j: int| 0 <= i < j < plan.len() implies unload_before3(dst_size, dst, #[trigger] plan[i], #[trigger] plan[j]) by {
        let ki = part_index3(parts, i);
        let kj = part_index3(parts, j);
        assert(plan[i] == parts[ki][i - part_start3(parts, ki)]);
        assert(plan[j] == parts[kj][j - part_start3(parts, kj)]);
        if ki == kj {
            assert(before3(parts[ki][i - part_start3(parts, ki)], parts[ki][j - part_start3(parts, ki)]));
        }
    }
}

/// Past the end of a row, the index is that of the start of the next row.
proof fn lemma_index3_next_row(size: (u32, u32, u32), offset: (i32, i32, i32), y: int, z: int)
    requires
        offset.0 + size.0 <= i32::MAX,
        i32::MIN <= y <= i32::MAX,
        i32::MIN <= z < i32::MAX,
    ensures
        index3(size, offset, ((offset.0 + size.0) as i32, y as i32, z as i32)) == index3(size, offset, (offset.0, y as i32, (z + 1) as i32)),
{
    let (w, d) = (size.0 as int, size.2 as int);
    let t = (y - offset.1) * d + (z - offset.2);
    assert(t * w + w == (t + 1) * w) by (nonlinear_arith);
}

/// Past the last row of a plane, the index is that of the start of the next plane.
proof fn lemma_index3_next_plane(size: (u32, u32, u32), offset: (i32, i32, i32), y: int)
    requires
        offset.2 + size.2 <= i32::MAX,
        i32::MIN <= y < i32::MAX,
    ensures
        index3(size, offset, (offset.0, y as i32, (offset.2 + size.2) as i32)) == index3(size, offset, (offset.0, (y + 1) as i32, offset.2)),
{
    let (w, d) = (size.0 as int, size.2 as int);
    let t = y - offset.1;
    assert((t * d + d) * w == ((t + 1) * d) * w) by (nonlinear_arith);
}

/// Past the last plane, the index is the volume.
proof fn lemma_index3_end(size: (u32, u32, u32), offset: (i32, i32, i32))
    requires
        offset.1 + size.1 <= i32::MAX,
    ensures
        index3(size, offset, (offset.0, (offset.1 + size.1) as i32, offset.2)) == size.0 * size.1 * size.2,
{
    let (w, h, d) = (size.0 as int, size.1 as int, size.2 as int);
    assert((h * d) * w == w * h * d) by (nonlinear_arith);
}

/// The arithmetic behind the index of a cell: every partial result stays within the
/// volume `w * h * d`.
proof fn lemma_cell_index3(w: int, h: int, d: int, x: int, y: int, z: int)
    requires
        0 <= x < w,
        0 <= y < h,
        0 <= z < d,
    ensures
        0 <= y * d <= y * d + z < h * d,
        h * d <= w * h * d,
        w * h <= w * h * d,
        (y * d + z) * w <= (y * d + z) * w + x < w * h * d,
{
    assert(y * d + z < h * d) by (nonlinear_arith)
        requires
            0 <= y < h,
            0 <= z < d,
    ;
    assert(0 <= y * d) by (nonlinear_arith)
        requires
            0 <= y,
            0 <= d,
    ;
    assert(h * d <= w * h * d && w * h <= w * h * d) by (nonlinear_arith)
        requires
            1 <= w,
            1 <= h,
            1 <= d,
    ;
    let t = y * d + z;
    assert(0 <= t * w && t * w + x < w * h * d) by (nonlinear_arith)
        requires
            0 <= t < h * d,
            0 <= x < w,
    ;
}

/// The `load` calls made while filling `cells` in iteration order over the region of the given
/// size at `offset`: one for each position outside the region of `prev_size` at
/// `prev_offset`, with the value put in its cell.
pub open spec fn fill_calls3<T>(prev_size: (u32, u32, u32), prev_offset: (i32, i32, i32), size: (u32, u32, u32), offset: (i32, i32, i32), cells: Seq<Option<T>>) -> Seq<Option<ManagerCall<(i32, i32, i32), T>>> {
    Seq::new(
        cells.len(),
        |j: int|
            if in_grid3(prev_size, prev_offset, position3(size, offset, j)) {
                None
            } else {
                Some(ManagerCall::Load(position3(size, offset, j), cells[j]->0))
            },
    )
}

/// Whether `plan` lists, as `(old position, new position)`, exactly the positions that
/// enter a grid of the given size moving from `src` to `dst`, each once with the old
/// position it takes over, in the order of [reloads_before3].
pub open spec fn is_reload_plan3(size: (u32, u32, u32), src: (i32, i32, i32), dst: (i32, i32, i32), plan: Seq<((i32, i32, i32), (i32, i32, i32))>) -> bool {
    &&& forall|k: int| 0 <= k < plan.len() ==> enters3(size, src, dst, (#[trigger] plan[k]).1) && plan[k].0 == prior3(size, src, dst, plan[k].1)
    &&& forall|p: (i32, i32, i32)| enters3(size, src, dst, p) ==> exists|k: int| 0 <= k < plan.len() && (#[trigger] plan[k]).1 == p
    &&& forall|i: int, j: int| 0 <= i < j < plan.len() ==> reloads_before3(size, src, dst, (#[trigger] plan[i]).1, (#[trigger] plan[j]).1)
}

/// Whether `plan` lists exactly the positions that leave when a grid moves from
/// `src_size` at `src` to `dst_size` at `dst`, each once, in the order of
/// [unload_before3] when the placements overlap and row by row otherwise.
pub open spec fn is_unload_plan3(src_size: (u32, u32, u32), src: (i32, i32, i32), dst_size: (u32, u32, u32), dst: (i32, i32, i32), plan: Seq<(i32, i32, i32)>) -> bool {
    &&& forall|k: int| 0 <= k < plan.len() ==> in_grid3(src_size, src, #[trigger] plan[k]) && !in_grid3(dst_size, dst, plan[k])
    &&& forall|p: (i32, i32, i32)| in_grid3(src_size, src, p) && !in_grid3(dst_size, dst, p) ==> plan.contains(p)
    &&& overlaps3(src_size, src, dst_size, dst) ==> forall|i: int, j: int| 0 <= i < j < plan.len() ==> unload_before3(dst_size, dst, #[trigger] plan[i], #[trigger] plan[j])
    &&& !overlaps3(src_size, src, dst_size, dst) ==> sorted3(plan)
    &&& forall|i: int, j: int| 0 <= i < j < plan.len() ==> #[trigger] plan[i] != #[trigger] plan[j]
}

/// The index in the underlying array of the cell that holds position `p`, for a grid
/// of the given size, wrap offset and offset: `x` varies fastest, then `z`, then `y`.
pub open spec fn slot3(size: (u32, u32, u32), wrap: (u32, u32, u32), offset: (i32, i32, i32), p: (i32, i32, i32)) -> int {
    (wrap_once(p.1 - offset.1 + wrap.1, size.1 as int) * size.2 + wrap_once(p.2 - offset.2 + wrap.2, size.2 as int)) * size.0
        + wrap_once(p.0 - offset.0 + wrap.0, size.0 as int)
}

/// The cell that holds new position `p` after a grid moves from `src` to `dst` is the cell
/// that held `prior3(size, src, dst, p)` before, when the wrap offset follows the move on a
/// roll and stays the same otherwise.
pub proof fn lemma_move_slot3(
    size: (u32, u32, u32),
    src: (i32, i32, i32),
    dst: (i32, i32, i32),
    wrap_src: (u32, u32, u32),
    wrap_dst: (u32, u32, u32),
    p: (i32, i32, i32),
)
    requires
        placements_fit3(size, src, dst),
        wrap_src.0 < size.0,
        wrap_src.1 < size.1,
        wrap_src.2 < size.2,
        wrap_dst.0 < size.0,
        wrap_dst.1 < size.1,
        wrap_dst.2 < size.2,
        rolls3(size, src, dst) ==> (wrap_dst.0 - wrap_src.0 - (dst.0 - src.0)) % (size.0 as int) == 0
            && (wrap_dst.1 - wrap_src.1 - (dst.1 - src.1)) % (size.1 as int) == 0
            && (wrap_dst.2 - wrap_src.2 - (dst.2 - src.2)) % (size.2 as int) == 0,
        !rolls3(size, src, dst) ==> wrap_dst == wrap_src,
        in_grid3(size, dst, p),
    ensures
        in_grid3(size, src, prior3(size, src, dst, p)),
        slot3(size, wrap_dst, dst, p) == slot3(size, wrap_src, src, prior3(size, src, dst, p)),
        in_grid3(size, src, p) ==> prior3(size, src, dst, p) == p,
        !rolls3(size, src, dst) ==> !in_grid3(size, src, p),
{
    if rolls3(size, src, dst) {
        lemma_axis_roll(size.0 as int, src.0 as int, dst.0 as int, wrap_src.0 as int, wrap_dst.0 as int, p.0 as int);
        lemma_axis_roll(size.1 as int, src.1 as int, dst.1 as int, wrap_src.1 as int, wrap_dst.1 as int, p.1 as int);
        lemma_axis_roll(size.2 as int, src.2 as int, dst.2 as int, wrap_src.2 as int, wrap_dst.2 as int, p.2 as int);
    }
}

/// The size and offset of a grid of the given size and offset inflated by `amount` on
/// each side of each axis.
pub open spec fn inflated3(size: (u32, u32, u32), offset: (i32, i32, i32), amount: (u32, u32, u32)) -> ((u32, u32, u32), (i32, i32, i32)) {
    (
        ((size.0 + 2 * amount.0) as u32, (size.1 + 2 * amount.1) as u32, (size.2 + 2 * amount.2) as u32),
        ((offset.0 - amount.0) as i32, (offset.1 - amount.1) as i32, (offset.2 - amount.2) as i32),
    )
}

/// The size and offset of a grid of the given size and offset deflated by `amount` on
/// each side of each axis.
pub open spec fn deflated3(size: (u32, u32, u32), offset: (i32, i32, i32), amount: (u32, u32, u32)) -> ((u32, u32, u32), (i32, i32, i32)) {
    (
        ((size.0 - 2 * amount.0) as u32, (size.1 - 2 * amount.1) as u32, (size.2 - 2 * amount.2) as u32),
        ((offset.0 + amount.0) as i32, (offset.1 + amount.1) as i32, (offset.2 + amount.2) as i32),
    )
}

/// Inflating moves the minimum of each axis down, and its maximum up, by that axis's
/// own amount, which keeps the bounds centred (twice the offset plus the size is
/// unchanged on each axis); deflating by the amount a grid was inflated by gives back
/// its size and offset.
pub proof fn lemma_inflate_deflate3(size: (u32, u32, u32), offset: (i32, i32, i32), amount: (u32, u32, u32))
    requires
        size.0 + 2 * amount.0 <= u32::MAX,
        size.1 + 2 * amount.1 <= u32::MAX,
        size.2 + 2 * amount.2 <= u32::MAX,
        offset.0 - amount.0 >= i32::MIN,
        offset.1 - amount.1 >= i32::MIN,
        offset.2 - amount.2 >= i32::MIN,
    ensures
        ({
            let (s, o) = inflated3(size, offset, amount);
            &&& o.0 == offset.0 - amount.0
            &&& o.0 + s.0 == offset.0 + size.0 + amount.0
            &&& o.1 == offset.1 - amount.1
            &&& o.1 + s.1 == offset.1 + size.1 + amount.1
            &&& o.2 == offset.2 - amount.2
            &&& o.2 + s.2 == offset.2 + size.2 + amount.2
            &&& 2 * o.0 + s.0 == 2 * offset.0 + size.0
            &&& 2 * o.1 + s.1 == 2 * offset.1 + size.1
            &&& 2 * o.2 + s.2 == 2 * offset.2 + size.2
            &&& deflated3(s, o, amount) == (size, offset)
        }),
{
}

/// Deflating moves the minimum of each axis up, and its maximum down, by that axis's
/// own amount; inflating by the same amount then gives back the size and offset.
pub proof fn lemma_deflate_inflate3(size: (u32, u32, u32), offset: (i32, i32, i32), amount: (u32, u32, u32))
    requires
        2 * amount.0 < size.0,
        2 * amount.1 < size.1,
        2 * amount.2 < size.2,
        offset.0 + amount.0 <= i32::MAX,
        offset.1 + amount.1 <= i32::MAX,
        offset.2 + amount.2 <= i32::MAX,
    ensures
        ({
            let (s, o) = deflated3(size, offset, amount);
            &&& o.0 == offset.0 + amount.0
            &&& o.0 + s.0 == offset.0 + size.0 - amount.0
            &&& o.1 == offset.1 + amount.1
            &&& o.1 + s.1 == offset.1 + size.1 - amount.1
            &&& o.2 == offset.2 + amount.2
            &&& o.2 + s.2 == offset.2 + size.2 - amount.2
            &&& 2 * o.0 + s.0 == 2 * offset.0 + size.0
            &&& 2 * o.1 + s.1 == 2 * offset.1 + size.1
            &&& 2 * o.2 + s.2 == 2 * offset.2 + size.2
            &&& inflated3(s, o, amount) == (size, offset)
        }),
{
}

/// A 3D implementation of a rolling grid. It's a data structure similar
/// to a circular buffer in the sense that cells can wrap around.
/// It uses a wrap offset to create the illusion that cells are being moved
/// while the cells remain in the same position in the underlying array.
///
/// Every cell of a grid holds a value, except after a fallible resize failed part way:
/// the cells that had been handed to the unload function are then empty.
pub struct RollGrid3D<T> {
    cells: Vec<Option<T>>,
    size: (u32, u32, u32),
    wrap_offset: (u32, u32, u32),
    grid_offset: (i32, i32, i32),
}

impl<T> View for RollGrid3D<T> {
    type V = Map<(i32, i32, i32), T>;

    /// The value held for each position of the grid whose cell is not empty.
    closed spec fn view(&self) -> Map<(i32, i32, i32), T> {
        Map::new(
            |p: (i32, i32, i32)| self.in_bounds(p) && self.cells@[self.slot(p)] is Some,
            |p: (i32, i32, i32)| self.cells@[self.slot(p)]->0,
        )
    }
}

impl<T> RollGrid3D<T> {
    /// The internal invariant of the grid.
    pub closed spec fn wf(&self) -> bool {
        &&& self.size.0 > 0
        &&& self.size.1 > 0
        &&& self.size.2 > 0
        &&& self.cells@.len() == self.size.0 * self.size.1 * self.size.2
        &&& self.size.0 * self.size.1 * self.size.2 <= usize::MAX
        &&& self.grid_offset.0 + self.size.0 <= i32::MAX
        &&& self.grid_offset.1 + self.size.1 <= i32::MAX
        &&& self.grid_offset.2 + self.size.2 <= i32::MAX
        &&& self.wrap_offset.0 < self.size.0
        &&& self.wrap_offset.1 < self.size.1
        &&& self.wrap_offset.2 < self.size.2
    }

    /// Every position of the grid holds a value.
    pub open spec fn full(&self) -> bool {
        forall|p: (i32, i32, i32)| #[trigger] self.in_bounds(p) ==> self@.contains_key(p)
    }

    /// Positions in both this grid and `prev` hold the same contents, and the grid is full
    /// if `prev` was.
    pub open spec fn keeps(&self, prev: &Self) -> bool {
        &&& forall|p: (i32, i32, i32)| prev.in_bounds(p) && self.in_bounds(p) ==> (#[trigger] self@.contains_key(p) <==> prev@.contains_key(p))
        &&& forall|p: (i32, i32, i32)| prev.in_bounds(p) && self.in_bounds(p) && prev@.contains_key(p) ==> #[trigger] self@[p] == prev@[p]
        &&& prev.full() ==> self.full()
    }

    /// This grid is `prev` resized to `size` and moved to `position`.
    pub open spec fn resized_from(&self, prev: &Self, size: (u32, u32, u32), position: (i32, i32, i32)) -> bool {
        &&& self.wf()
        &&& self.grid_size() == size
        &&& self.grid_offset() == position
        &&& self.keeps(prev)
    }

    /// The state a fallible resize of `prev` to `size` at `position` leaves when a manager
    /// function fails: either the grid kept its size and offset and only lost cells, or it
    /// was only being moved, and has moved.
    pub open spec fn resize_stopped(&self, prev: &Self, size: (u32, u32, u32), position: (i32, i32, i32)) -> bool {
        &&& self.wf()
        &&& {
            ||| {
                &&& self.grid_size() == prev.grid_size()
                &&& self.grid_offset() == prev.grid_offset()
                &&& forall|p: (i32, i32, i32)| #[trigger] self@.contains_key(p) ==> prev@.contains_key(p) && self@[p] == prev@[p]
            }
            ||| {
                &&& prev.grid_size() == size
                &&& self.grid_size() == size
                &&& self.grid_offset() == position
                &&& forall|p: (i32, i32, i32)| prev.in_bounds(p) && self.in_bounds(p) ==> (#[trigger] self@.contains_key(p) <==> prev@.contains_key(p))
                &&& forall|p: (i32, i32, i32)| prev.in_bounds(p) && self.in_bounds(p) && prev@.contains_key(p) ==> #[trigger] self@[p] == prev@[p]
            }
        }
    }

    /// The `reload` calls of a move of `prev` into this grid, one for each entry
    /// `(old position, new position)` of `plan` whose new position held a value in `prev`:
    /// the value it held, and the value it holds in this grid. `None` stands for no call.
    pub open spec fn reload_calls(&self, prev: &Self, plan: Seq<((i32, i32, i32), (i32, i32, i32))>) -> Seq<Option<ManagerCall<(i32, i32, i32), T>>> {
        plan.map_values(|e: ((i32, i32, i32), (i32, i32, i32))|
            if prev@.contains_key(e.1) {
                Some(ManagerCall::Reload(e.0, e.1, prev@[e.1], self@[e.1]))
            } else {
                None
            })
    }

    /// The `reload` calls of a move of `prev` to the offset of this grid, one for each
    /// entry `(old position, new position)` of `plan` whose old position held a value in
    /// `prev`: that value, and the value the new position holds in this grid.
    pub open spec fn move_calls(&self, prev: &Self, plan: Seq<((i32, i32, i32), (i32, i32, i32))>) -> Seq<Option<ManagerCall<(i32, i32, i32), T>>> {
        plan.map_values(|e: ((i32, i32, i32), (i32, i32, i32))|
            if prev@.contains_key(e.0) {
                Some(ManagerCall::Reload(e.0, e.1, prev@[e.0], self@[e.1]))
            } else {
                None
            })
    }

    /// The `unload` calls of a resize of `prev`, one for each position of `plan` that held
    /// a value in `prev`, with that value.
    pub open spec fn unload_calls(prev: &Self, plan: Seq<(i32, i32, i32)>) -> Seq<Option<ManagerCall<(i32, i32, i32), T>>> {
        plan.map_values(|p: (i32, i32, i32)|
            if prev@.contains_key(p) {
                Some(ManagerCall::Unload(p, prev@[p]))
            } else {
                None
            })
    }

    /// The `load` calls of a resize of `prev` into this grid: row by row over this grid,
    /// one for each position outside `prev`, with the value it holds in this grid.
    pub open spec fn load_calls(&self, prev: &Self) -> Seq<Option<ManagerCall<(i32, i32, i32), T>>> {
        Seq::new(
            (self.grid_size().0 * self.grid_size().1 * self.grid_size().2) as nat,
            |i: int|
                if prev.in_bounds(position3(self.grid_size(), self.grid_offset(), i)) {
                    None
                } else {
                    Some(ManagerCall::Load(position3(self.grid_size(), self.grid_offset(), i), self@[position3(self.grid_size(), self.grid_offset(), i)]))
                },
        )
    }

    /// Whether this grid is what a resize or move of `prev` with the manager `manage` makes:
    /// at the same size, `manage` reloads the positions that enter, in the order of a
    /// reload plan; at another size, it unloads the positions that leave, in the order of
    /// an unload plan, then loads the positions that enter, row by row.
    pub open spec fn managed_from<M: CellManage<(i32, i32, i32), T>>(&self, prev: &Self, manage: M) -> bool {
        if self.grid_size() == prev.grid_size() {
            exists|plan: Seq<((i32, i32, i32), (i32, i32, i32))>|
                #[trigger] is_reload_plan3(prev.grid_size(), prev.grid_offset(), self.grid_offset(), plan)
                    && manager_runs(manage, self.move_calls(prev, plan))
        } else {
            exists|plan: Seq<(i32, i32, i32)>|
                #[trigger] is_unload_plan3(prev.grid_size(), prev.grid_offset(), self.grid_size(), self.grid_offset(), plan)
                    && manager_runs(manage, Self::unload_calls(prev, plan) + self.load_calls(prev))
        }
    }

    /// [RollGrid3D::managed_from] for a fallible manager, each of whose calls succeeded.
    pub open spec fn try_managed_from<E, M: TryCellManage<(i32, i32, i32), T, E>>(&self, prev: &Self, manage: M) -> bool {
        if self.grid_size() == prev.grid_size() {
            exists|plan: Seq<((i32, i32, i32), (i32, i32, i32))>|
                #[trigger] is_reload_plan3(prev.grid_size(), prev.grid_offset(), self.grid_offset(), plan)
                    && try_manager_runs::<(i32, i32, i32), T, E, M>(manage, self.move_calls(prev, plan))
        } else {
            exists|plan: Seq<(i32, i32, i32)>|
                #[trigger] is_unload_plan3(prev.grid_size(), prev.grid_offset(), self.grid_size(), self.grid_offset(), plan)
                    && try_manager_runs::<(i32, i32, i32), T, E, M>(manage, Self::unload_calls(prev, plan) + self.load_calls(prev))
        }
    }

    /// Whether this grid is what a move of `prev` along `plan` with the fallible manager
    /// `manage` leaves when the reload of entry `k` fails with `e`: the reloads planned
    /// before it succeeded, the new positions hold values where their old positions did,
    /// and those planned after it keep the values of the cells they took over.
    pub open spec fn move_stopped<E, M: TryCellManage<(i32, i32, i32), T, E>>(&self, prev: &Self, plan: Seq<((i32, i32, i32), (i32, i32, i32))>, manage: M, e: E) -> bool {
        &&& forall|j: int| 0 <= j < plan.len() ==> (self@.contains_key((#[trigger] plan[j]).1) <==> prev@.contains_key(plan[j].0))
        &&& exists|k: int|
            0 <= k < plan.len() && prev@.contains_key(plan[k].0) && #[trigger] try_manager_stops::<(i32, i32, i32), T, E, M>(
                manage,
                self.move_calls(prev, plan).take(k),
                ManagerCall::Reload(plan[k].0, plan[k].1, prev@[plan[k].0], self@[plan[k].1]),
                e,
            ) && forall|j: int| k < j < plan.len() && prev@.contains_key(plan[j].0) ==> #[trigger] self@[plan[j].1] == prev@[plan[j].0]
    }

    /// Whether this grid is what a resize of `prev` along the unload plan `plan` with the
    /// fallible manager `manage` leaves when it stops at the unload of entry `k`, which
    /// fails with `e` after the unloads planned before it succeeded: the cells of the
    /// entries up to `k` are empty, and the others hold what they held.
    pub open spec fn unload_stopped<E, M: TryCellManage<(i32, i32, i32), T, E>>(&self, prev: &Self, plan: Seq<(i32, i32, i32)>, manage: M, e: E) -> bool {
        exists|k: int|
            0 <= k < plan.len() && prev@.contains_key(plan[k]) && #[trigger] try_manager_stops::<(i32, i32, i32), T, E, M>(
                manage,
                Self::unload_calls(prev, plan).take(k),
                ManagerCall::Unload(plan[k], prev@[plan[k]]),
                e,
            ) && forall|q: (i32, i32, i32)|
                #![trigger self@.contains_key(q)]
                #![trigger prev@.contains_key(q)]
                self@.contains_key(q) <==> (prev@.contains_key(q) && !plan.take(k + 1).contains(q))
    }

    /// Whether this grid is what a resize of `prev` to `size` at `position` along the
    /// unload plan `plan` with the fallible manager `manage` leaves when it stops at a
    /// load, which fails with `e` after every planned unload and the loads of the positions
    /// filled before it, in iteration order, succeeded: the cells of the plan, and those of
    /// the positions filled before it, are empty, and the others hold what they held.
    pub open spec fn load_stopped<E, M: TryCellManage<(i32, i32, i32), T, E>>(&self, prev: &Self, size: (u32, u32, u32), position: (i32, i32, i32), plan: Seq<(i32, i32, i32)>, manage: M, e: E) -> bool {
        exists|cells: Seq<Option<T>>, v: T|
            cells.len() < size.0 * size.1 * size.2 && !prev.in_bounds(position3(size, position, cells.len() as int)) && #[trigger] try_manager_stops::<(i32, i32, i32), T, E, M>(
                manage,
                Self::unload_calls(prev, plan) + fill_calls3(prev.grid_size(), prev.grid_offset(), size, position, cells),
                ManagerCall::Load(position3(size, position, cells.len() as int), v),
                e,
            ) && forall|q: (i32, i32, i32)|
                #![trigger self@.contains_key(q)]
                #![trigger prev@.contains_key(q)]
                self@.contains_key(q) <==> (prev@.contains_key(q) && !plan.contains(q) && !(in_grid3(size, position, q) && index3(size, position, q) < cells.len()))
    }

    /// Whether the fallible manager `manage` may have made the calls that a resize of `prev`
    /// to `size` at `position` makes up to the one that failed with `e`, and this grid is
    /// what such a resize leaves then: at the same size, a move stopped as
    /// [RollGrid3D::move_stopped] says; at another size, an unload or a load that failed.
    pub open spec fn try_stopped_from<E, M: TryCellManage<(i32, i32, i32), T, E>>(&self, prev: &Self, size: (u32, u32, u32), position: (i32, i32, i32), manage: M, e: E) -> bool {
        if size == prev.grid_size() {
            exists|plan: Seq<((i32, i32, i32), (i32, i32, i32))>|
                #[trigger] is_reload_plan3(prev.grid_size(), prev.grid_offset(), position, plan) && self.move_stopped(prev, plan, manage, e)
        } else {
            exists|plan: Seq<(i32, i32, i32)>|
                #[trigger] is_unload_plan3(prev.grid_size(), prev.grid_offset(), size, position, plan) && (self.unload_stopped(prev, plan, manage, e)
                    || self.load_stopped(prev, size, position, plan, manage, e))
        }
    }

    /// The dimensions of the grid.
    pub closed spec fn grid_size(&self) -> (u32, u32, u32) {
        self.size
    }

    /// The position of the grid's minimum corner.
    pub closed spec fn grid_offset(&self) -> (i32, i32, i32) {
        self.grid_offset
    }

    /// Whether `p` lies inside the grid.
    #[verifier::inline]
    pub open spec fn in_bounds(&self, p: (i32, i32, i32)) -> bool {
        in_grid3(self.grid_size(), self.grid_offset(), p)
    }

    /// The index in the underlying array of the cell that holds position `p`.
    pub closed spec fn slot(&self, p: (i32, i32, i32)) -> int {
        slot3(self.size, self.wrap_offset, self.grid_offset, p)
    }

    /// Only positions inside the grid have values.
    pub proof fn lemma_view_domain(&self)
        ensures
            forall|p: (i32, i32, i32)| #[trigger] self@.contains_key(p) ==> self.in_bounds(p),
            self.full() ==> forall|p: (i32, i32, i32)| #[trigger] self@.contains_key(p) <==> self.in_bounds(p),
    {
    }

    /// Distinct positions of the grid live in distinct cells of the array.
    pub proof fn lemma_slot(&self, p: (i32, i32, i32), q: (i32, i32, i32))
        requires
            self.wf(),
            self.in_bounds(p),
            self.in_bounds(q),
        ensures
            0 <= self.slot(p) < self.grid_size().0 * self.grid_size().1 * self.grid_size().2,
            self.slot(p) == self.slot(q) ==> p == q,
    {
        let (w, h, d) = (self.size.0 as int, self.size.1 as int, self.size.2 as int);
        let (ox, oy, oz) = (self.grid_offset.0 as int, self.grid_offset.1 as int, self.grid_offset.2 as int);
        let (vx, vy, vz) = (self.wrap_offset.0 as int, self.wrap_offset.1 as int, self.wrap_offset.2 as int);
        let px = wrap_once(p.0 - ox + vx, w);
        let py = wrap_once(p.1 - oy + vy, h);
        let pz = wrap_once(p.2 - oz + vz, d);
        let qx = wrap_once(q.0 - ox + vx, w);
        let qy = wrap_once(q.1 - oy + vy, h);
        let qz = wrap_once(q.2 - oz + vz, d);
        lemma_row_major(d, h, pz, py, qz, qy);
        lemma_row_major(d, h, qz, qy, pz, py);
        lemma_row_major(w, d * h, px, py * d + pz, qx, qy * d + qz);
        assert(w * (d * h) == w * h * d) by (nonlinear_arith);
    }

    /// The grid has a wrapping offset, which dictates the lookup order of cells.
    /// This method finds the index of the cell holding a world position.
    fn offset_index(&self, coord: (i32, i32, i32)) -> (r: Option<usize>)
        requires
            self.wf(),
        ensures
            r is Some <==> self.in_bounds(coord),
            r matches Some(i) ==> i == self.slot(coord) && i < self.cells@.len(),
    {
        let (x, y, z) = (coord.0 as i64, coord.1 as i64, coord.2 as i64);
        let (mx, my, mz) = (self.grid_offset.0 as i64, self.grid_offset.1 as i64, self.grid_offset.2 as i64);
        let width = self.size.0 as i64;
        let height = self.size.1 as i64;
        let depth = self.size.2 as i64;
        if x < mx || y < my || z < mz || x >= mx + width || y >= my + height || z >= mz + depth {
            return None;
        }
        let nx = x - mx + self.wrap_offset.0 as i64;
        let ny = y - my + self.wrap_offset.1 as i64;
        let nz = z - mz + self.wrap_offset.2 as i64;
        let wx = if nx >= width { nx - width } else { nx };
        let wy = if ny >= height { ny - height } else { ny };
        let wz = if nz >= depth { nz - depth } else { nz };
        proof {
            self.lemma_slot(coord, coord);
        }
        let w = self.size.0 as usize;
        let h = self.size.1 as usize;
        let d = self.size.2 as usize;
        let (ux, uy, uz) = (wx as usize, wy as usize, wz as usize);
        proof {
            lemma_cell_index3(w as int, h as int, d as int, ux as int, uy as int, uz as int);
        }
        Some((uy * d + uz) * w + ux)
    }

    /// Builds a grid from the cells of a freshly initialized array.
    fn from_fixed(cells: FixedArray<T>, size: (u32, u32, u32), grid_offset: (i32, i32, i32)) -> (r: Self)
        requires
            cells.wf(),
            cells@.len() == size.0 * size.1 * size.2,
            size.0 * size.1 * size.2 > 0,
            size.0 * size.1 * size.2 <= usize::MAX,
            grid_offset.0 + size.0 <= i32::MAX,
            grid_offset.1 + size.1 <= i32::MAX,
            grid_offset.2 + size.2 <= i32::MAX,
        ensures
            r.wf(),
            r.full(),
            r.grid_size() == size,
            r.grid_offset() == grid_offset,
            forall|p: (i32, i32, i32)| #[trigger] r.in_bounds(p) ==> r@[p] == cells@[index3(size, grid_offset, p)],
    {
        let ghost c = cells@;
        let slots = cells.into_slots();
        assert(size.0 > 0 && size.1 > 0 && size.2 > 0) by (nonlinear_arith)
            requires
                size.0 * size.1 * size.2 > 0,
        ;
        let r = Self { cells: slots, size, wrap_offset: (0, 0, 0), grid_offset };
        assert forall|p: (i32, i32, i32)| #[trigger] r.in_bounds(p) implies r@.contains_key(p) && r@[p] == c[index3(size, grid_offset, p)] by {
            lemma_index3(size, grid_offset, p, p);
        }
        r
    }

    /// Create a new [RollGrid3D] using an initialize function to initialize cells.
    ///
    /// The init function should take as input the coordinate that is being
    /// initialized, and should return the desired value for the cell.
    ///
    /// `init` is called once for every position, also when `T` is zero-sized: a value of
    /// `T` is only ever made by `init`.
    pub fn new<F: FnMut((i32, i32, i32)) -> T>(width: u32, height: u32, depth: u32, grid_offset: (i32, i32, i32), init: F) -> (r: Self)
        requires
            width * height * depth > 0,
            width * height * depth <= usize::MAX,
            grid_offset.0 + width <= i32::MAX,
            grid_offset.1 + height <= i32::MAX,
            grid_offset.2 + depth <= i32::MAX,
            forall|p: (i32, i32, i32)| call_requires(init, (p,)),
        ensures
            r.wf(),
            r.full(),
            r.grid_size() == (width, height, depth),
            r.grid_offset() == grid_offset,
            forall|p: (i32, i32, i32)| r.in_bounds(p) ==> call_ensures(init, (p,), #[trigger] r@[p]),
    {
        let cells = FixedArray::new_3d((width, height, depth), grid_offset, init);
        Self::from_fixed(cells, (width, height, depth), grid_offset)
    }

    /// Try to create a new [RollGrid3D] with a fallible init function.
    /// Stops at the first error and returns it.
    ///
    /// The init function should take as input the coordinate that is being
    /// initialized, and should return the desired value for the cell.
    /// The error returned is that of the first position, in iteration order, whose
    /// initialization failed.
    ///
    /// `init` is called once for every position, also when `T` is zero-sized: a value of
    /// `T` is only ever made by `init`.
    pub fn try_new<E, F: FnMut((i32, i32, i32)) -> Result<T, E>>(width: u32, height: u32, depth: u32, grid_offset: (i32, i32, i32), init: F) -> (r: Result<Self, E>)
        requires
            width * height * depth > 0,
            width * height * depth <= usize::MAX,
            grid_offset.0 + width <= i32::MAX,
            grid_offset.1 + height <= i32::MAX,
            grid_offset.2 + depth <= i32::MAX,
            forall|p: (i32, i32, i32)| call_requires(init, (p,)),
        ensures
            r matches Ok(g) ==> {
                &&& g.wf()
                &&& g.full()
                &&& g.grid_size() == (width, height, depth)
                &&& g.grid_offset() == grid_offset
                &&& forall|p: (i32, i32, i32)| g.in_bounds(p) ==> call_ensures(init, (p,), Ok::<T, E>(#[trigger] g@[p]))
            },
            r is Err ==> exists|p: (i32, i32, i32)| in_grid3((width, height, depth), grid_offset, p) && #[trigger] call_ensures(init, (p,), Err::<T, E>(r->Err_0)) && forall|q: (i32, i32, i32)|
                #![trigger in_grid3((width, height, depth), grid_offset, q)]
                in_grid3((width, height, depth), grid_offset, q) && (q.1 < p.1 || (q.1 == p.1 && (q.2 < p.2 || (q.2 == p.2 && q.0 < p.0)))) ==> exists|v: T| #[trigger] call_ensures(init, (q,), Ok::<T, E>(v)),
    {
        let res = FixedArray::try_new_3d((width, height, depth), grid_offset, init);
        let cells = match res {
            Ok(c) => c,
            Err(e) => {
                let r: Result<Self, E> = Err(e);
                proof {
                    assert(res->Err_0 == r->Err_0);
                }
                return r;
            },
        };
        Ok(Self::from_fixed(cells, (width, height, depth), grid_offset))
    }

    /// Get the offset relative to the grid's offset.
    pub fn relative_offset(&self, coord: (i32, i32, i32)) -> (r: (i64, i64, i64))
        ensures
            r == ((coord.0 - self.grid_offset().0) as i64, (coord.1 - self.grid_offset().1) as i64, (coord.2 - self.grid_offset().2) as i64),
    {
        (
            coord.0 as i64 - self.grid_offset.0 as i64,
            coord.1 as i64 - self.grid_offset.1 as i64,
            coord.2 as i64 - self.grid_offset.2 as i64,
        )
    }

    /// Moves the grid's offset to `position` without reloading anything, and returns the
    /// cells that must be reloaded.
    fn begin_reposition(&mut self, position: (i32, i32, i32)) -> (plan: Vec<((i32, i32, i32), (i32, i32, i32))>)
        requires
            old(self).wf(),
            placements_fit3(old(self).grid_size(), old(self).grid_offset(), position),
        ensures
            final(self).wf(),
            final(self).grid_size() == old(self).grid_size(),
            final(self).grid_offset() == position,
            forall|p: (i32, i32, i32)| #[trigger] final(self).in_bounds(p) ==> {
                &&& old(self).in_bounds(prior3(old(self).grid_size(), old(self).grid_offset(), position, p))
                &&& final(self).cells@[final(self).slot(p)] == old(self).cells@[old(self).slot(prior3(old(self).grid_size(), old(self).grid_offset(), position, p))]
                &&& old(self).in_bounds(p) ==> prior3(old(self).grid_size(), old(self).grid_offset(), position, p) == p
            },
            forall|k: int| 0 <= k < plan@.len() ==> {
                &&& final(self).in_bounds((#[trigger] plan@[k]).1)
                &&& !old(self).in_bounds(plan@[k].1)
                &&& plan@[k].0 == prior3(old(self).grid_size(), old(self).grid_offset(), position, plan@[k].1)
            },
            forall|p: (i32, i32, i32)| final(self).in_bounds(p) && !old(self).in_bounds(p) ==> exists|k: int| 0 <= k < plan@.len() && (#[trigger] plan@[k]).1 == p,
            forall|i: int, j: int| 0 <= i < j < plan@.len() ==> (#[trigger] plan@[i]).1 != (#[trigger] plan@[j]).1,
            forall|i: int, j: int| 0 <= i < j < plan@.len() ==> reloads_before3(old(self).grid_size(), old(self).grid_offset(), position, (#[trigger] plan@[i]).1, (#[trigger] plan@[j]).1),
    {
        let size = self.size;
        let src = self.grid_offset;
        let plan = reposition_plan3(size, src, position);
        let w = size.0 as i64;
        let h = size.1 as i64;
        let d = size.2 as i64;
        let dx = position.0 as i64 - src.0 as i64;
        let dy = position.1 as i64 - src.1 as i64;
        let dz = position.2 as i64 - src.2 as i64;
        if -w < dx && dx < w && -h < dy && dy < h && -d < dz && dz < d {
            let tx = self.wrap_offset.0 as i64 + dx;
            let ty = self.wrap_offset.1 as i64 + dy;
            let tz = self.wrap_offset.2 as i64 + dz;
            let wx = if tx < 0 { tx + w } else if tx >= w { tx - w } else { tx };
            let wy = if ty < 0 { ty + h } else if ty >= h { ty - h } else { ty };
            let wz = if tz < 0 { tz + d } else if tz >= d { tz - d } else { tz };
            proof {
                assert((wx - self.wrap_offset.0 - dx) % (w as int) == 0) by {
                    lemma_mod_window(wx - self.wrap_offset.0 - dx, w as int);
                }
                assert((wy - self.wrap_offset.1 - dy) % (h as int) == 0) by {
                    lemma_mod_window(wy - self.wrap_offset.1 - dy, h as int);
                }
                assert((wz - self.wrap_offset.2 - dz) % (d as int) == 0) by {
                    lemma_mod_window(wz - self.wrap_offset.2 - dz, d as int);
                }
            }
            self.wrap_offset = (wx as u32, wy as u32, wz as u32);
        }
        self.grid_offset = position;
        proof {
            assert forall|p: (i32, i32, i32)| #[trigger] self.in_bounds(p) implies {
                &&& old(self).in_bounds(prior3(size, src, position, p))
                &&& self.cells@[self.slot(p)] == old(self).cells@[old(self).slot(prior3(size, src, position, p))]
                &&& old(self).in_bounds(p) ==> prior3(size, src, position, p) == p
            } by {
                lemma_move_slot3(size, src, position, old(self).wrap_offset, self.wrap_offset, p);
            }
        }
        plan
    }

    /// After moving the offset, positions in both placements keep their contents, and a
    /// full grid stays full.
    proof fn lemma_moved(&self, moved: &Self)
        requires
            self.wf(),
            moved.wf(),
            moved.grid_size() == self.grid_size(),
            placements_fit3(self.grid_size(), self.grid_offset(), moved.grid_offset()),
            forall|p: (i32, i32, i32)| #[trigger] moved.in_bounds(p) ==> {
                &&& self.in_bounds(prior3(self.grid_size(), self.grid_offset(), moved.grid_offset(), p))
                &&& moved.cells@[moved.slot(p)] == self.cells@[self.slot(prior3(self.grid_size(), self.grid_offset(), moved.grid_offset(), p))]
                &&& self.in_bounds(p) ==> prior3(self.grid_size(), self.grid_offset(), moved.grid_offset(), p) == p
            },
        ensures
            forall|p: (i32, i32, i32)| self.in_bounds(p) && moved.in_bounds(p) ==> (#[trigger] moved@.contains_key(p) <==> self@.contains_key(p)),
            forall|p: (i32, i32, i32)| self.in_bounds(p) && moved.in_bounds(p) && self@.contains_key(p) ==> #[trigger] moved@[p] == self@[p],
            self.full() ==> moved.full(),
    {
        assert forall|p: (i32, i32, i32)| #[trigger] moved.in_bounds(p) && self.full() implies moved@.contains_key(p) by {
            let q = prior3(self.grid_size(), self.grid_offset(), moved.grid_offset(), p);
            assert(self.in_bounds(q));
        }
    }

    /// Calls `reload` on the cell of each planned new position.
    fn reload_planned<F: FnMut((i32, i32, i32), (i32, i32, i32), &mut T)>(&mut self, plan: &Vec<((i32, i32, i32), (i32, i32, i32))>, src_bounds: Ghost<Bounds3D>, reload: F)
        requires
            old(self).wf(),
            forall|a: (i32, i32, i32), b: (i32, i32, i32), c: &mut T| call_requires(reload, (a, b, c)),
            forall|k: int| 0 <= k < plan@.len() ==> {
                &&& old(self).in_bounds((#[trigger] plan@[k]).1)
                &&& !src_bounds@.contains_spec(plan@[k].1)
            },
            forall|i: int, j: int| 0 <= i < j < plan@.len() ==> (#[trigger] plan@[i]).1 != (#[trigger] plan@[j]).1,
        ensures
            final(self).wf(),
            final(self).grid_size() == old(self).grid_size(),
            final(self).grid_offset() == old(self).grid_offset(),
            forall|p: (i32, i32, i32)| #[trigger] old(self).in_bounds(p) ==> (final(self)@.contains_key(p) <==> old(self)@.contains_key(p)),
            forall|p: (i32, i32, i32)| old(self).in_bounds(p) && src_bounds@.contains_spec(p) && old(self)@.contains_key(p) ==> #[trigger] final(self)@[p] == old(self)@[p],
            forall|k: int|
                #![trigger plan@[k]]
                0 <= k < plan@.len() && old(self)@.contains_key(plan@[k].1) ==> exists|c: &mut T|
                    *c == old(self)@[plan@[k].1] && *final(c) == final(self)@[plan@[k].1] && #[trigger] call_ensures(reload, (plan@[k].0, plan@[k].1, c), ()),
    {
        let ghost reload0 = reload;
        let mut reload = reload;
        let mut i: usize = 0;
        while i < plan.len()
            invariant
                self.wf(),
                self.grid_size() == old(self).grid_size(),
                self.grid_offset() == old(self).grid_offset(),
                reload == reload0,
                forall|a: (i32, i32, i32), b: (i32, i32, i32), c: &mut T| call_requires(reload0, (a, b, c)),
                forall|k: int| 0 <= k < plan@.len() ==> {
                    &&& old(self).in_bounds((#[trigger] plan@[k]).1)
                    &&& !src_bounds@.contains_spec(plan@[k].1)
                },
                forall|p: (i32, i32, i32)| #[trigger] old(self).in_bounds(p) ==> (self@.contains_key(p) <==> old(self)@.contains_key(p)),
                forall|p: (i32, i32, i32)| old(self).in_bounds(p) && src_bounds@.contains_spec(p) && old(self)@.contains_key(p) ==> #[trigger] self@[p] == old(self)@[p],
                forall|i: int, j: int| 0 <= i < j < plan@.len() ==> (#[trigger] plan@[i]).1 != (#[trigger] plan@[j]).1,
                0 <= i <= plan@.len(),
                forall|k: int| 0 <= k < plan@.len() && !(k < i) && old(self)@.contains_key(plan@[k].1) ==> #[trigger] self@[plan@[k].1] == old(self)@[plan@[k].1],
                forall|k: int|
                    #![trigger plan@[k]]
                    0 <= k < i && old(self)@.contains_key(plan@[k].1) ==> exists|c: &mut T|
                        *c == old(self)@[plan@[k].1] && *final(c) == self@[plan@[k].1] && #[trigger] call_ensures(reload0, (plan@[k].0, plan@[k].1, c), ()),
            decreases plan@.len() - i,
        {
            let (prior, p) = plan[i];
            let index = self.offset_index(p).unwrap();
            let ghost before = *self;
            proof {
                assert forall|q: (i32, i32, i32)| #[trigger] old(self).in_bounds(q) && q != p implies slot3(self.size, self.wrap_offset, self.grid_offset, q) != index
                    && 0 <= slot3(self.size, self.wrap_offset, self.grid_offset, q) < self.cells@.len() by {
                    self.lemma_slot(q, p);
                }
            }
            match &mut self.cells[index] {
                Some(cell) => reload(prior, p, cell),
                None => {},
            }
            proof {
                assert forall|q: (i32, i32, i32)| #[trigger] old(self).in_bounds(q) implies (self@.contains_key(q) <==> before@.contains_key(q)) by {
                    if q != p {
                        assert(self.cells@[self.slot(q)] == before.cells@[before.slot(q)]);
                    }
                }
                assert forall|q: (i32, i32, i32)| old(self).in_bounds(q) && src_bounds@.contains_spec(q) && old(self)@.contains_key(q) implies #[trigger] self@[q] == old(self)@[q] by {
                    assert(q != p);
                    assert(self.cells@[self.slot(q)] == before.cells@[before.slot(q)]);
                    assert(before@[q] == old(self)@[q]);
                }
                assert forall|k: int| 0 <= k < plan@.len() && k != i && before@.contains_key(plan@[k].1) implies self@.contains_key(plan@[k].1) && #[trigger] self@[plan@[k].1] == before@[plan@[k].1] by {
                    let q = plan@[k].1;
                    if k < i {
                        assert(plan@[k].1 != plan@[i as int].1);
                    } else {
                        assert(plan@[i as int].1 != plan@[k].1);
                    }
                    assert(self.cells@[self.slot(q)] == before.cells@[before.slot(q)]);
                }
                assert(before@.contains_key(p) ==> exists|c: &mut T| *c == before@[p] && *final(c) == self@[p] && #[trigger] call_ensures(reload0, (prior, p, c), ()));
            }
            i = i + 1;
        }
    }

    /// Calls the manager's `reload` on the cell of each planned new position.
    fn reload_planned_with<M: CellManage<(i32, i32, i32), T>>(&mut self, plan: &Vec<((i32, i32, i32), (i32, i32, i32))>, src_bounds: Ghost<Bounds3D>, manage: &mut M)
        requires
            old(self).wf(),
            forall|k: int| 0 <= k < plan@.len() ==> {
                &&& old(self).in_bounds((#[trigger] plan@[k]).1)
                &&& !src_bounds@.contains_spec(plan@[k].1)
            },
            forall|i: int, j: int| 0 <= i < j < plan@.len() ==> (#[trigger] plan@[i]).1 != (#[trigger] plan@[j]).1,
            old(manage).ready(),
        ensures
            final(manage).ready(),
            manager_runs(*old(manage), final(self).reload_calls(old(self), plan@)),
            final(self).wf(),
            final(self).grid_size() == old(self).grid_size(),
            final(self).grid_offset() == old(self).grid_offset(),
            forall|p: (i32, i32, i32)| #[trigger] old(self).in_bounds(p) ==> (final(self)@.contains_key(p) <==> old(self)@.contains_key(p)),
            forall|p: (i32, i32, i32)| old(self).in_bounds(p) && src_bounds@.contains_spec(p) && old(self)@.contains_key(p) ==> #[trigger] final(self)@[p] == old(self)@[p],
    {
        let ghost mut states: Seq<M> = seq![*manage];
        let mut i: usize = 0;
        while i < plan.len()
            invariant
                self.wf(),
                self.grid_size() == old(self).grid_size(),
                self.grid_offset() == old(self).grid_offset(),
                forall|k: int| 0 <= k < plan@.len() ==> {
                    &&& old(self).in_bounds((#[trigger] plan@[k]).1)
                    &&& !src_bounds@.contains_spec(plan@[k].1)
                },
                forall|p: (i32, i32, i32)| #[trigger] old(self).in_bounds(p) ==> (self@.contains_key(p) <==> old(self)@.contains_key(p)),
                forall|p: (i32, i32, i32)| old(self).in_bounds(p) && src_bounds@.contains_spec(p) && old(self)@.contains_key(p) ==> #[trigger] self@[p] == old(self)@[p],
                forall|i: int, j: int| 0 <= i < j < plan@.len() ==> (#[trigger] plan@[i]).1 != (#[trigger] plan@[j]).1,
                0 <= i <= plan@.len(),
                forall|k: int| 0 <= k < plan@.len() && !(k < i) && old(self)@.contains_key(plan@[k].1) ==> #[trigger] self@[plan@[k].1] == old(self)@[plan@[k].1],
                manage.ready(),
                states.len() == i + 1,
                states[0] == *old(manage),
                states[i as int] == *manage,
                forall|k: int| 0 <= k < i ==> manager_step(states[k], #[trigger] self.reload_calls(old(self), plan@)[k], states[k + 1]),
            decreases plan@.len() - i,
        {
            let (prior, p) = plan[i];
            let index = self.offset_index(p).unwrap();
            let ghost before = *self;
            let ghost m0 = *manage;
            proof {
                assert forall|q: (i32, i32, i32)| #[trigger] old(self).in_bounds(q) && q != p implies slot3(self.size, self.wrap_offset, self.grid_offset, q) != index
                    && 0 <= slot3(self.size, self.wrap_offset, self.grid_offset, q) < self.cells@.len() by {
                    self.lemma_slot(q, p);
                }
            }
            match &mut self.cells[index] {
                Some(cell) => manage.reload(prior, p, cell),
                None => {},
            }
            proof {
                assert forall|q: (i32, i32, i32)| #[trigger] old(self).in_bounds(q) implies (self@.contains_key(q) <==> before@.contains_key(q)) by {
                    if q != p {
                        assert(self.cells@[self.slot(q)] == before.cells@[before.slot(q)]);
                    }
                }
                assert forall|q: (i32, i32, i32)| old(self).in_bounds(q) && src_bounds@.contains_spec(q) && old(self)@.contains_key(q) implies #[trigger] self@[q] == old(self)@[q] by {
                    assert(q != p);
                    assert(self.cells@[self.slot(q)] == before.cells@[before.slot(q)]);
                    assert(before@[q] == old(self)@[q]);
                }
                assert forall|k: int| 0 <= k < plan@.len() && k != i && before@.contains_key(plan@[k].1) implies self@.contains_key(plan@[k].1) && #[trigger] self@[plan@[k].1] == before@[plan@[k].1] by {
                    let q = plan@[k].1;
                    if k < i {
                        assert(plan@[k].1 != plan@[i as int].1);
                    } else {
                        assert(plan@[i as int].1 != plan@[k].1);
                    }
                    assert(self.cells@[self.slot(q)] == before.cells@[before.slot(q)]);
                }
                assert(before@.contains_key(p) ==> m0.reloads(prior, p, before@[p], self@[p], *manage));
                assert(!before@.contains_key(p) ==> *manage == m0);
                let ghost prev_states = states;
                states = states.push(*manage);
                assert forall|k: int| 0 <= k < i + 1 implies manager_step(states[k], #[trigger] self.reload_calls(old(self), plan@)[k], states[k + 1]) by {
                    assert(old(self).in_bounds(plan@[k].1));
                    if k < i {
                        assert(manager_step(prev_states[k], before.reload_calls(old(self), plan@)[k], prev_states[k + 1]));
                        if old(self)@.contains_key(plan@[k].1) {
                            assert(before@.contains_key(plan@[k].1));
                            assert(self@[plan@[k].1] == before@[plan@[k].1]);
                        }
                        assert(self.reload_calls(old(self), plan@)[k] == before.reload_calls(old(self), plan@)[k]);
                    } else {
                        assert(plan@[k] == (prior, p));
                        if old(self)@.contains_key(p) {
                            assert(before@[p] == old(self)@[p]);
                        }
                    }
                }
            }
            i = i + 1;
        }
        proof {
            lemma_manager_runs(*old(manage), self.reload_calls(old(self), plan@), states);
        }
    }

    /// Calls the manager's fallible `try_reload` on the cell of each planned new position, stopping at
    /// the first error.
    fn try_reload_planned_with<E, M: TryCellManage<(i32, i32, i32), T, E>>(&mut self, plan: &Vec<((i32, i32, i32), (i32, i32, i32))>, src_bounds: Ghost<Bounds3D>, manage: &mut M) -> (r: Result<(), E>)
        requires
            old(self).wf(),
            forall|k: int| 0 <= k < plan@.len() ==> {
                &&& old(self).in_bounds((#[trigger] plan@[k]).1)
                &&& !src_bounds@.contains_spec(plan@[k].1)
            },
            forall|i: int, j: int| 0 <= i < j < plan@.len() ==> (#[trigger] plan@[i]).1 != (#[trigger] plan@[j]).1,
            old(manage).try_ready(),
        ensures
            final(manage).try_ready(),
            final(self).wf(),
            final(self).grid_size() == old(self).grid_size(),
            final(self).grid_offset() == old(self).grid_offset(),
            forall|p: (i32, i32, i32)| #[trigger] old(self).in_bounds(p) ==> (final(self)@.contains_key(p) <==> old(self)@.contains_key(p)),
            forall|p: (i32, i32, i32)| old(self).in_bounds(p) && src_bounds@.contains_spec(p) && old(self)@.contains_key(p) ==> #[trigger] final(self)@[p] == old(self)@[p],
            plan@.len() == 0 ==> r is Ok,
            r is Ok ==> try_manager_runs::<(i32, i32, i32), T, E, M>(*old(manage), final(self).reload_calls(old(self), plan@)),
            r is Err ==> exists|k: int|
                0 <= k < plan@.len() && old(self)@.contains_key(plan@[k].1) && #[trigger] try_manager_stops::<(i32, i32, i32), T, E, M>(
                    *old(manage),
                    final(self).reload_calls(old(self), plan@).take(k),
                    ManagerCall::Reload(plan@[k].0, plan@[k].1, old(self)@[plan@[k].1], final(self)@[plan@[k].1]),
                    r->Err_0,
                ) && forall|j: int| k < j < plan@.len() && old(self)@.contains_key(plan@[j].1) ==> #[trigger] final(self)@[plan@[j].1] == old(self)@[plan@[j].1],
    {
        let ghost mut states: Seq<M> = seq![*manage];
        let mut i: usize = 0;
        while i < plan.len()
            invariant
                self.wf(),
                self.grid_size() == old(self).grid_size(),
                self.grid_offset() == old(self).grid_offset(),
                forall|k: int| 0 <= k < plan@.len() ==> {
                    &&& old(self).in_bounds((#[trigger] plan@[k]).1)
                    &&& !src_bounds@.contains_spec(plan@[k].1)
                },
                forall|p: (i32, i32, i32)| #[trigger] old(self).in_bounds(p) ==> (self@.contains_key(p) <==> old(self)@.contains_key(p)),
                forall|p: (i32, i32, i32)| old(self).in_bounds(p) && src_bounds@.contains_spec(p) && old(self)@.contains_key(p) ==> #[trigger] self@[p] == old(self)@[p],
                forall|i: int, j: int| 0 <= i < j < plan@.len() ==> (#[trigger] plan@[i]).1 != (#[trigger] plan@[j]).1,
                0 <= i <= plan@.len(),
                forall|k: int| 0 <= k < plan@.len() && !(k < i) && old(self)@.contains_key(plan@[k].1) ==> #[trigger] self@[plan@[k].1] == old(self)@[plan@[k].1],
                manage.try_ready(),
                states.len() == i + 1,
                states[0] == *old(manage),
                states[i as int] == *manage,
                forall|k: int| 0 <= k < i ==> try_manager_step::<(i32, i32, i32), T, E, M>(states[k], #[trigger] self.reload_calls(old(self), plan@)[k], states[k + 1]),
            decreases plan@.len() - i,
        {
            let (prior, p) = plan[i];
            let index = self.offset_index(p).unwrap();
            let ghost before = *self;
            let ghost m0 = *manage;
            proof {
                assert forall|q: (i32, i32, i32)| #[trigger] old(self).in_bounds(q) && q != p implies slot3(self.size, self.wrap_offset, self.grid_offset, q) != index
                    && 0 <= slot3(self.size, self.wrap_offset, self.grid_offset, q) < self.cells@.len() by {
                    self.lemma_slot(q, p);
                }
            }
            let res = match &mut self.cells[index] {
                Some(cell) => manage.try_reload(prior, p, cell),
                None => Ok(()),
            };
            proof {
                assert forall|q: (i32, i32, i32)| #[trigger] old(self).in_bounds(q) implies (self@.contains_key(q) <==> before@.contains_key(q)) by {
                    if q != p {
                        assert(self.cells@[self.slot(q)] == before.cells@[before.slot(q)]);
                    }
                }
                assert forall|q: (i32, i32, i32)| old(self).in_bounds(q) && src_bounds@.contains_spec(q) && old(self)@.contains_key(q) implies #[trigger] self@[q] == old(self)@[q] by {
                    assert(q != p);
                    assert(self.cells@[self.slot(q)] == before.cells@[before.slot(q)]);
                    assert(before@[q] == old(self)@[q]);
                }
                assert forall|k: int| 0 <= k < plan@.len() && k != i && before@.contains_key(plan@[k].1) implies self@.contains_key(plan@[k].1) && #[trigger] self@[plan@[k].1] == before@[plan@[k].1] by {
                    let q = plan@[k].1;
                    if k < i {
                        assert(plan@[k].1 != plan@[i as int].1);
                    } else {
                        assert(plan@[i as int].1 != plan@[k].1);
                    }
                    assert(self.cells@[self.slot(q)] == before.cells@[before.slot(q)]);
                }
                assert(before@.contains_key(p) ==> m0.try_reloads(prior, p, before@[p], self@[p], res, *manage));
                assert(!before@.contains_key(p) ==> *manage == m0 && res is Ok);
            }
            match res {
                Ok(()) => {
                    proof {
                        let ghost prev_states = states;
                        states = states.push(*manage);
                        assert forall|k: int| 0 <= k < i + 1 implies try_manager_step::<(i32, i32, i32), T, E, M>(states[k], #[trigger] self.reload_calls(old(self), plan@)[k], states[k + 1]) by {
                            assert(old(self).in_bounds(plan@[k].1));
                            if k < i {
                                assert(try_manager_step::<(i32, i32, i32), T, E, M>(prev_states[k], before.reload_calls(old(self), plan@)[k], prev_states[k + 1]));
                                if old(self)@.contains_key(plan@[k].1) {
                                    assert(before@.contains_key(plan@[k].1));
                                    assert(self@[plan@[k].1] == before@[plan@[k].1]);
                                }
                                assert(self.reload_calls(old(self), plan@)[k] == before.reload_calls(old(self), plan@)[k]);
                            } else {
                                assert(plan@[k] == (prior, p));
                                if old(self)@.contains_key(p) {
                                    assert(before@[p] == old(self)@[p]);
                                    assert(m0.try_reloads(prior, p, old(self)@[p], self@[p], res, *manage) && res is Ok);
                                    lemma_try_reload_step::<(i32, i32, i32), T, E, M>(m0, prior, p, old(self)@[p], self@[p], res, *manage);
                                    assert(try_manager_step::<(i32, i32, i32), T, E, M>(m0, Some(ManagerCall::Reload(prior, p, old(self)@[p], self@[p])), *manage));
                                    assert(self.reload_calls(old(self), plan@)[k] == Some(ManagerCall::Reload(prior, p, old(self)@[p], self@[p])));
                                }
                            }
                        }
                    }
                },
                Err(e) => {
                    let r: Result<(), E> = Err(e);
                    proof {
                        assert(before@.contains_key(p));
                        let calls = self.reload_calls(old(self), plan@).take(i as int);
                        assert forall|k: int| 0 <= k < calls.len() implies try_manager_step::<(i32, i32, i32), T, E, M>(states[k], #[trigger] calls[k], states[k + 1]) by {
                            assert(calls[k] == self.reload_calls(old(self), plan@)[k]);
                            assert(old(self).in_bounds(plan@[k].1));
                            assert(try_manager_step::<(i32, i32, i32), T, E, M>(states[k], before.reload_calls(old(self), plan@)[k], states[k + 1]));
                            if old(self)@.contains_key(plan@[k].1) {
                                assert(before@.contains_key(plan@[k].1));
                                assert(self@[plan@[k].1] == before@[plan@[k].1]);
                            }
                            assert(self.reload_calls(old(self), plan@)[k] == before.reload_calls(old(self), plan@)[k]);
                        }
                        assert(m0.try_reloads(prior, p, before@[p], self@[p], Err(r->Err_0), *manage));
                        assert(plan@[i as int] == (prior, p));
                        assert(before@[p] == old(self)@[p]);
                        lemma_try_manager_stops::<(i32, i32, i32), T, E, M>(*old(manage), calls, states, ManagerCall::Reload(prior, p, before@[p], self@[p]), r->Err_0, *manage);
                        assert forall|j: int| i < j < plan@.len() && old(self)@.contains_key(plan@[j].1) implies #[trigger] self@[plan@[j].1] == old(self)@[plan@[j].1] by {
                            assert(before@.contains_key(plan@[j].1));
                        }
                    }
                    return r;
                },
            }
            i = i + 1;
        }
        proof {
            lemma_try_manager_runs::<(i32, i32, i32), T, E, M>(*old(manage), self.reload_calls(old(self), plan@), states);
        }
        Ok(())
    }

    /// Resize and reposition the grid simultaneously.
    ///
    /// When only the position changes, this is [RollGrid3D::reposition] with the manager's
    /// `reload`. Otherwise the cells that leave the grid are handed to `unload` in the order
    /// given by [unload_plan3], then the new grid is filled in iteration order, moving the
    /// cells that stay and calling `load` for the positions that enter.
    /// The calls made on `manage` are those [RollGrid3D::managed_from] describes.
    /// See [CellManage].
    #[verifier::rlimit(40)]
    #[verifier::spinoff_prover]
    pub fn resize_and_reposition<M: CellManage<(i32, i32, i32), T>>(
        &mut self,
        width: u32,
        height: u32,
        depth: u32,
        new_position: (i32, i32, i32),
        manage: M,
    )
        requires
            old(self).wf(),
            width * height * depth > 0,
            (width, height, depth) != old(self).grid_size() ==> width * height * depth <= i32::MAX,
            new_position.0 + width <= i32::MAX,
            new_position.1 + height <= i32::MAX,
            new_position.2 + depth <= i32::MAX,
            manage.ready(),
        ensures
            final(self).resized_from(old(self), (width, height, depth), new_position),
            final(self).managed_from(old(self), manage),
    {
        let ghost manage0 = manage;
        let mut manage = manage;
        assert(width > 0 && height > 0 && depth > 0) by (nonlinear_arith)
            requires
                width * height * depth > 0,
        ;
        if width == self.size.0 && height == self.size.1 && depth == self.size.2 {
            let ghost start = *self;
            if self.grid_offset.0 != new_position.0 || self.grid_offset.1 != new_position.1 || self.grid_offset.2 != new_position.2 {
                let b = self.bounds();
                let src_bounds = Ghost(b);
                let plan = self.begin_reposition(new_position);
                proof {
                    start.lemma_moved(self);
                }
                let ghost mid = *self;
                self.reload_planned_with(&plan, src_bounds, &mut manage);
                proof {
                    let size = start.grid_size();
                    let src = start.grid_offset();
                    assert forall|k: int| 0 <= k < plan@.len() implies #[trigger] self.move_calls(&start, plan@)[k] == self.reload_calls(&mid, plan@)[k] by {
                        let p = plan@[k].1;
                        assert(mid.in_bounds(p));
                        assert(mid@.contains_key(p) <==> start@.contains_key(prior3(size, src, new_position, p)));
                        if mid@.contains_key(p) {
                            assert(mid@[p] == start@[prior3(size, src, new_position, p)]);
                        }
                    }
                    assert(self.move_calls(&start, plan@) =~= self.reload_calls(&mid, plan@));
                    assert(is_reload_plan3(size, src, new_position, plan@));
                }
            } else {
                proof {
                    let plan = Seq::<((i32, i32, i32), (i32, i32, i32))>::empty();
                    assert(is_reload_plan3(start.grid_size(), start.grid_offset(), new_position, plan));
                    lemma_manager_runs(manage0, self.move_calls(&start, plan), seq![manage0]);
                }
            }
            return;
        }
        let size = (width, height, depth);
        let unload = unload_plan3(self.size, self.grid_offset, size, new_position);
        let ghost start = *self;
        let ghost mut states: Seq<M> = seq![manage];
        let mut i: usize = 0;
        while i < unload.len()
            invariant
                self.wf(),
                self.size == start.size,
                self.wrap_offset == start.wrap_offset,
                self.grid_offset == start.grid_offset,
                forall|k: int| 0 <= k < unload@.len() ==> start.in_bounds(#[trigger] unload@[k]) && !in_grid3(size, new_position, unload@[k]),
                forall|a: int, b: int| 0 <= a < b < unload@.len() ==> #[trigger] unload@[a] != #[trigger] unload@[b],
                forall|q: (i32, i32, i32)| #[trigger] start.in_bounds(q) && in_grid3(size, new_position, q) ==> self.cells@[self.slot(q)] == start.cells@[start.slot(q)],
                forall|k: int| i <= k < unload@.len() ==> self.cells@[self.slot(#[trigger] unload@[k])] == start.cells@[start.slot(unload@[k])],
                0 <= i <= unload@.len(),
                manage.ready(),
                states.len() == i + 1,
                states[0] == manage0,
                states[i as int] == manage,
                forall|k: int| 0 <= k < i ==> manager_step(states[k], #[trigger] Self::unload_calls(&start, unload@)[k], states[k + 1]),
            decreases unload@.len() - i,
        {
            let p = unload[i];
            let index = self.offset_index(p).unwrap();
            proof {
                assert forall|q: (i32, i32, i32)| #[trigger] start.in_bounds(q) && in_grid3(size, new_position, q) implies slot3(self.size, self.wrap_offset, self.grid_offset, q) != index
                    && 0 <= slot3(self.size, self.wrap_offset, self.grid_offset, q) < self.cells@.len() by {
                    self.lemma_slot(q, p);
                }
                assert forall|q: (i32, i32, i32)| #[trigger] start.in_bounds(q) && q != p implies slot3(self.size, self.wrap_offset, self.grid_offset, q) != index by {
                    self.lemma_slot(q, p);
                }
                assert(self.cells@[index as int] == start.cells@[start.slot(p)]);
            }
            let taken = self.cells[index].take();
            match taken {
                Some(v) => manage.unload(p, v),
                None => {},
            }
            proof {
                let prev_states = states;
                states = states.push(manage);
                assert forall|k: int| 0 <= k < i + 1 implies manager_step(states[k], #[trigger] Self::unload_calls(&start, unload@)[k], states[k + 1]) by {
                    if k < i {
                        assert(manager_step(prev_states[k], Self::unload_calls(&start, unload@)[k], prev_states[k + 1]));
                    } else {
                        assert(unload@[k] == p);
                        assert(start.in_bounds(p));
                    }
                }
                assert forall|k: int| i + 1 <= k < unload@.len() implies self.cells@[self.slot(#[trigger] unload@[k])] == start.cells@[start.slot(unload@[k])] by {
                    assert(unload@[i as int] != unload@[k]);
                    self.lemma_slot(unload@[k], p);
                }
            }
            i = i + 1;
        }
        let ghost m_mid = manage;
        let ghost before_fill = *self;
        let cells = self.fill_resized(size, new_position, &mut manage);
        let ghost filled = cells@;
        proof {
            assert(before_fill.grid_size() == start.grid_size() && before_fill.grid_offset() == start.grid_offset());
        }
        self.cells = cells;
        self.size = size;
        self.grid_offset = new_position;
        self.wrap_offset = (0, 0, 0);
        proof {
            assert forall|q: (i32, i32, i32)| #[trigger] self.in_bounds(q) implies self.slot(q) == index3(size, new_position, q) && 0 <= self.slot(q) < self.cells@.len() by {
                lemma_index3(size, new_position, q, q);
            }
            assert forall|q: (i32, i32, i32)| start.in_bounds(q) && self.in_bounds(q) implies (#[trigger] self@.contains_key(q) <==> start@.contains_key(q))
                && (start@.contains_key(q) ==> self@[q] == start@[q]) by {
                assert(self.slot(q) == index3(size, new_position, q));
            }
            assert(start.full() ==> self.full()) by {
                if start.full() {
                    assert forall|q: (i32, i32, i32)| #[trigger] self.in_bounds(q) implies self@.contains_key(q) by {
                        assert(self.slot(q) == index3(size, new_position, q));
                    }
                }
            }
            let u = unload@.len() as int;
            let fill = choose|fs: Seq<M>| fs.len() == filled.len() + 1 && fs[0] == m_mid
                && forall|j: int| 0 <= j < filled.len() ==> manager_step(fs[j], #[trigger] fill_calls3(start.grid_size(), start.grid_offset(), size, new_position, filled)[j], fs[j + 1]);
            assert forall|j: int| 0 <= j < filled.len() implies #[trigger] self.load_calls(&start)[j] == fill_calls3(start.grid_size(), start.grid_offset(), size, new_position, filled)[j] by {
                let q = position3(size, new_position, j);
                lemma_position3(size, new_position, j, q);
                assert(self.in_bounds(q));
                assert(self.slot(q) == j);
            }
            assert(self.load_calls(&start) =~= fill_calls3(start.grid_size(), start.grid_offset(), size, new_position, filled));
            let calls = Self::unload_calls(&start, unload@) + self.load_calls(&start);
            let all = states + fill.skip(1);
            assert forall|k: int| 0 <= k < calls.len() implies manager_step(all[k], #[trigger] calls[k], all[k + 1]) by {
                if k < u {
                    assert(calls[k] == Self::unload_calls(&start, unload@)[k]);
                    assert(all[k] == states[k]);
                    if k + 1 < u + 1 {
                        assert(all[k + 1] == states[k + 1]);
                    }
                } else {
                    let j = k - u;
                    assert(calls[k] == fill_calls3(start.grid_size(), start.grid_offset(), size, new_position, filled)[j]);
                    assert(manager_step(fill[j], fill_calls3(start.grid_size(), start.grid_offset(), size, new_position, filled)[j], fill[j + 1]));
                    if j == 0 {
                        assert(all[k] == states[u]);
                    } else {
                        assert(all[k] == fill[j]);
                    }
                    assert(all[k + 1] == fill[j + 1]);
                }
            }
            assert(all[0] == manage0);
            lemma_manager_runs(manage0, calls, all);
            assert(is_unload_plan3(start.grid_size(), start.grid_offset(), size, new_position, unload@));
        }
    }

    /// Builds the cells of the grid resized to `size` at `new_position`, in iteration
    /// order: the cells of positions that stay are moved out of this grid, and `load` is
    /// called for the positions that enter.
    #[verifier::rlimit(40)]
    fn fill_resized<M: CellManage<(i32, i32, i32), T>>(&mut self, size: (u32, u32, u32), new_position: (i32, i32, i32), manage: &mut M) -> (cells: Vec<Option<T>>)
        requires
            old(self).wf(),
            size.0 > 0,
            size.1 > 0,
            size.2 > 0,
            size.0 * size.1 * size.2 <= i32::MAX,
            new_position.0 + size.0 <= i32::MAX,
            new_position.1 + size.1 <= i32::MAX,
            new_position.2 + size.2 <= i32::MAX,
            old(manage).ready(),
        ensures
            final(manage).ready(),
            exists|fs: Seq<M>|
                fs.len() == cells@.len() + 1 && fs[0] == *old(manage) && forall|j: int|
                    0 <= j < cells@.len() ==> manager_step(fs[j], #[trigger] fill_calls3(old(self).grid_size(), old(self).grid_offset(), size, new_position, cells@)[j], fs[j + 1]),
            final(self).wf(),
            final(self).size == old(self).size,
            final(self).wrap_offset == old(self).wrap_offset,
            final(self).grid_offset == old(self).grid_offset,
            cells@.len() == size.0 * size.1 * size.2,
            forall|q: (i32, i32, i32)| #[trigger] in_grid3(size, new_position, q) ==> {
                &&& old(self).in_bounds(q) ==> cells@[index3(size, new_position, q)] == old(self).cells@[old(self).slot(q)]
                &&& !old(self).in_bounds(q) ==> cells@[index3(size, new_position, q)] is Some
            },
    {
        let ghost start = *self;
        let ghost mut states: Seq<M> = seq![*manage];
        let mut cells: Vec<Option<T>> = Vec::new();
        let (ox, oy, oz) = new_position;
        let x_end = (ox as i64 + size.0 as i64) as i32;
        let y_end = (oy as i64 + size.1 as i64) as i32;
        let z_end = (oz as i64 + size.2 as i64) as i32;
        let mut y = oy;
        assert(index3(size, new_position, (ox, oy, oz)) == 0) by {
            assert((0 * size.2 + 0) * size.0 + 0 == 0) by (nonlinear_arith);
        }
        while y < y_end
            invariant
                self.wf(),
                self.size == start.size,
                self.wrap_offset == start.wrap_offset,
                self.grid_offset == start.grid_offset,
                *old(self) == start,
                size.0 > 0,
                size.1 > 0,
                size.2 > 0,
                x_end == ox + size.0,
                y_end == oy + size.1,
                z_end == oz + size.2,
                new_position == (ox, oy, oz),
                oy <= y <= y_end,
                cells@.len() == index3(size, new_position, (ox, y, oz)),
                forall|q: (i32, i32, i32)| #[trigger] start.in_bounds(q) && in_grid3(size, new_position, q) && !before3(q, (ox, y, oz)) ==> self.cells@[self.slot(q)] == start.cells@[start.slot(q)],
                forall|q: (i32, i32, i32)| #[trigger] in_grid3(size, new_position, q) && before3(q, (ox, y, oz)) ==> {
                    &&& start.in_bounds(q) ==> cells@[index3(size, new_position, q)] == start.cells@[start.slot(q)]
                    &&& !start.in_bounds(q) ==> cells@[index3(size, new_position, q)] is Some
                },
                manage.ready(),
                states.len() == cells@.len() + 1,
                states[0] == *old(manage),
                states[cells@.len() as int] == *manage,
                forall|j: int| 0 <= j < cells@.len() ==> manager_step(states[j], #[trigger] fill_calls3(start.grid_size(), start.grid_offset(), size, new_position, cells@)[j], states[j + 1]),
            decreases y_end - y,
        {
            let mut z = oz;
            while z < z_end
                invariant
                    self.wf(),
                    self.size == start.size,
                    self.wrap_offset == start.wrap_offset,
                    self.grid_offset == start.grid_offset,
                    size.0 > 0,
                    size.1 > 0,
                    size.2 > 0,
                    x_end == ox + size.0,
                    y_end == oy + size.1,
                    z_end == oz + size.2,
                    new_position == (ox, oy, oz),
                    oy <= y < y_end,
                    oz <= z <= z_end,
                    cells@.len() == index3(size, new_position, (ox, y, z)),
                    forall|q: (i32, i32, i32)| #[trigger] start.in_bounds(q) && in_grid3(size, new_position, q) && !before3(q, (ox, y, z)) ==> self.cells@[self.slot(q)] == start.cells@[start.slot(q)],
                    forall|q: (i32, i32, i32)| #[trigger] in_grid3(size, new_position, q) && before3(q, (ox, y, z)) ==> {
                        &&& start.in_bounds(q) ==> cells@[index3(size, new_position, q)] == start.cells@[start.slot(q)]
                        &&& !start.in_bounds(q) ==> cells@[index3(size, new_position, q)] is Some
                    },
                    manage.ready(),
                    states.len() == cells@.len() + 1,
                    states[0] == *old(manage),
                    states[cells@.len() as int] == *manage,
                    forall|j: int| 0 <= j < cells@.len() ==> manager_step(states[j], #[trigger] fill_calls3(start.grid_size(), start.grid_offset(), size, new_position, cells@)[j], states[j + 1]),
                decreases z_end - z,
            {
                let mut x = ox;
                while x < x_end
                    invariant
                        self.wf(),
                        self.size == start.size,
                        self.wrap_offset == start.wrap_offset,
                        self.grid_offset == start.grid_offset,
                        x_end == ox + size.0,
                        y_end == oy + size.1,
                        z_end == oz + size.2,
                        new_position == (ox, oy, oz),
                        oy <= y < y_end,
                        oz <= z < z_end,
                        ox <= x <= x_end,
                        cells@.len() == index3(size, new_position, (x, y, z)),
                        forall|q: (i32, i32, i32)| #[trigger] start.in_bounds(q) && in_grid3(size, new_position, q) && !before3(q, (x, y, z)) ==> self.cells@[self.slot(q)] == start.cells@[start.slot(q)],
                        forall|q: (i32, i32, i32)| #[trigger] in_grid3(size, new_position, q) && before3(q, (x, y, z)) ==> {
                            &&& start.in_bounds(q) ==> cells@[index3(size, new_position, q)] == start.cells@[start.slot(q)]
                            &&& !start.in_bounds(q) ==> cells@[index3(size, new_position, q)] is Some
                        },
                        manage.ready(),
                        states.len() == cells@.len() + 1,
                        states[0] == *old(manage),
                        states[cells@.len() as int] == *manage,
                        forall|j: int| 0 <= j < cells@.len() ==> manager_step(states[j], #[trigger] fill_calls3(start.grid_size(), start.grid_offset(), size, new_position, cells@)[j], states[j + 1]),
                    decreases x_end - x,
                {
                    let p = (x, y, z);
                    let ghost before = cells@;
                    let ghost m0 = *manage;
                    proof {
                        lemma_index3(size, new_position, p, p);
                        lemma_position3(size, new_position, before.len() as int, p);
                        assert(index3(size, new_position, p) == before.len());
                    }
                    match self.offset_index(p) {
                        Some(index) => {
                            proof {
                                assert forall|q: (i32, i32, i32)| #[trigger] start.in_bounds(q) && q != p implies slot3(self.size, self.wrap_offset, self.grid_offset, q) != index
                                    && 0 <= slot3(self.size, self.wrap_offset, self.grid_offset, q) < self.cells@.len() by {
                                    self.lemma_slot(q, p);
                                }
                            }
                            let v = self.cells[index].take();
                            cells.push(v);
                        },
                        None => {
                            let v = manage.load(p);
                            cells.push(Some(v));
                        },
                    }
                    proof {
                        assert forall|q: (i32, i32, i32)| #[trigger] in_grid3(size, new_position, q) && before3(q, ((x + 1) as i32, y, z)) implies {
                            &&& start.in_bounds(q) ==> cells@[index3(size, new_position, q)] == start.cells@[start.slot(q)]
                            &&& !start.in_bounds(q) ==> cells@[index3(size, new_position, q)] is Some
                        } by {
                            lemma_index3(size, new_position, q, p);
                            if q != p {
                                assert(cells@[index3(size, new_position, q)] == before[index3(size, new_position, q)]);
                            }
                        }
                        let prev_states = states;
                        states = states.push(*manage);
                        assert forall|j: int| 0 <= j < cells@.len() implies manager_step(states[j], #[trigger] fill_calls3(start.grid_size(), start.grid_offset(), size, new_position, cells@)[j], states[j + 1]) by {
                            if j < before.len() {
                                assert(fill_calls3(start.grid_size(), start.grid_offset(), size, new_position, cells@)[j] == fill_calls3(start.grid_size(), start.grid_offset(), size, new_position, before)[j]);
                                assert(manager_step(prev_states[j], fill_calls3(start.grid_size(), start.grid_offset(), size, new_position, before)[j], prev_states[j + 1]));
                            } else {
                                assert(j == before.len());
                                assert(position3(size, new_position, j) == p);
                            }
                        }
                    }
                    x = x + 1;
                }
                proof {
                    lemma_index3_next_row(size, new_position, y as int, z as int);
                }
                z = z + 1;
            }
            proof {
                lemma_index3_next_plane(size, new_position, y as int);
            }
            y = y + 1;
        }
        proof {
            lemma_index3_end(size, new_position);
            assert(forall|j: int| 0 <= j < cells@.len() ==> manager_step(states[j], #[trigger] fill_calls3(start.grid_size(), start.grid_offset(), size, new_position, cells@)[j], states[j + 1]));
        }
        cells
    }

    /// Builds the cells of the grid resized to `size` at `new_position` like
    /// [RollGrid3D::fill_resized], with the fallible `try_load`, stopping at its first error
    /// and returning it: an error that `try_load` gave for a position that enters. The
    /// cells already moved out of this grid are then left empty.
    #[verifier::rlimit(40)]
    fn try_fill_resized<E, M: TryCellManage<(i32, i32, i32), T, E>>(&mut self, size: (u32, u32, u32), new_position: (i32, i32, i32), manage: &mut M) -> (r: Result<Vec<Option<T>>, E>)
        requires
            old(self).wf(),
            old(manage).try_ready(),
            size.0 > 0,
            size.1 > 0,
            size.2 > 0,
            size.0 * size.1 * size.2 <= i32::MAX,
            new_position.0 + size.0 <= i32::MAX,
            new_position.1 + size.1 <= i32::MAX,
            new_position.2 + size.2 <= i32::MAX,
        ensures
            final(manage).try_ready(),
            final(self).wf(),
            final(self).size == old(self).size,
            final(self).wrap_offset == old(self).wrap_offset,
            final(self).grid_offset == old(self).grid_offset,
            forall|q: (i32, i32, i32)| #[trigger] old(self).in_bounds(q) ==> final(self).cells@[final(self).slot(q)] == old(self).cells@[old(self).slot(q)] || final(self).cells@[final(self).slot(q)] is None,
            forall|q: (i32, i32, i32)| #[trigger] old(self).in_bounds(q) && !in_grid3(size, new_position, q) ==> final(self).cells@[final(self).slot(q)] == old(self).cells@[old(self).slot(q)],
            r is Err ==> exists|cells: Seq<Option<T>>, v: T|
                cells.len() < size.0 * size.1 * size.2 && !old(self).in_bounds(position3(size, new_position, cells.len() as int)) && #[trigger] try_manager_stops::<(i32, i32, i32), T, E, M>(
                    *old(manage),
                    fill_calls3(old(self).grid_size(), old(self).grid_offset(), size, new_position, cells),
                    ManagerCall::Load(position3(size, new_position, cells.len() as int), v),
                    r->Err_0,
                ) && forall|q: (i32, i32, i32)| #[trigger] old(self).in_bounds(q) && in_grid3(size, new_position, q) ==> {
                    &&& index3(size, new_position, q) < cells.len() ==> final(self).cells@[final(self).slot(q)] is None
                    &&& !(index3(size, new_position, q) < cells.len()) ==> final(self).cells@[final(self).slot(q)] == old(self).cells@[old(self).slot(q)]
                },
            r matches Ok(cells) ==> exists|fs: Seq<M>|
                fs.len() == cells@.len() + 1 && fs[0] == *old(manage) && forall|j: int|
                    0 <= j < cells@.len() ==> try_manager_step::<(i32, i32, i32), T, E, M>(fs[j], #[trigger] fill_calls3(old(self).grid_size(), old(self).grid_offset(), size, new_position, cells@)[j], fs[j + 1]),
            r matches Ok(cells) ==> {
                &&& cells@.len() == size.0 * size.1 * size.2
                &&& forall|q: (i32, i32, i32)| #[trigger] in_grid3(size, new_position, q) ==> {
                    &&& old(self).in_bounds(q) ==> cells@[index3(size, new_position, q)] == old(self).cells@[old(self).slot(q)]
                    &&& !old(self).in_bounds(q) ==> cells@[index3(size, new_position, q)] is Some
                }
            },
    {
        let ghost start = *self;
        let ghost mut states: Seq<M> = seq![*manage];
        let mut cells: Vec<Option<T>> = Vec::new();
        let (ox, oy, oz) = new_position;
        let x_end = (ox as i64 + size.0 as i64) as i32;
        let y_end = (oy as i64 + size.1 as i64) as i32;
        let z_end = (oz as i64 + size.2 as i64) as i32;
        let mut y = oy;
        assert(index3(size, new_position, (ox, oy, oz)) == 0) by {
            assert((0 * size.2 + 0) * size.0 + 0 == 0) by (nonlinear_arith);
        }
        while y < y_end
            invariant
                self.wf(),
                self.size == start.size,
                self.wrap_offset == start.wrap_offset,
                self.grid_offset == start.grid_offset,
                forall|q: (i32, i32, i32)| #[trigger] start.in_bounds(q) ==> self.cells@[self.slot(q)] == start.cells@[start.slot(q)] || self.cells@[self.slot(q)] is None,
                *old(self) == start,
                size.0 > 0,
                size.1 > 0,
                size.2 > 0,
                x_end == ox + size.0,
                y_end == oy + size.1,
                z_end == oz + size.2,
                new_position == (ox, oy, oz),
                oy <= y <= y_end,
                cells@.len() == index3(size, new_position, (ox, y, oz)),
                forall|q: (i32, i32, i32)| #[trigger] start.in_bounds(q) && in_grid3(size, new_position, q) && !before3(q, (ox, y, oz)) ==> self.cells@[self.slot(q)] == start.cells@[start.slot(q)],
                forall|q: (i32, i32, i32)| #[trigger] start.in_bounds(q) && in_grid3(size, new_position, q) && before3(q, (ox, y, oz)) ==> self.cells@[self.slot(q)] is None,
                forall|q: (i32, i32, i32)| #[trigger] start.in_bounds(q) && !in_grid3(size, new_position, q) ==> self.cells@[self.slot(q)] == start.cells@[start.slot(q)],
                forall|q: (i32, i32, i32)| #[trigger] in_grid3(size, new_position, q) && before3(q, (ox, y, oz)) ==> {
                    &&& start.in_bounds(q) ==> cells@[index3(size, new_position, q)] == start.cells@[start.slot(q)]
                    &&& !start.in_bounds(q) ==> cells@[index3(size, new_position, q)] is Some
                },
                manage.try_ready(),
                states.len() == cells@.len() + 1,
                states[0] == *old(manage),
                states[cells@.len() as int] == *manage,
                forall|j: int| 0 <= j < cells@.len() ==> try_manager_step::<(i32, i32, i32), T, E, M>(states[j], #[trigger] fill_calls3(start.grid_size(), start.grid_offset(), size, new_position, cells@)[j], states[j + 1]),
            decreases y_end - y,
        {
            let mut z = oz;
            while z < z_end
                invariant
                    self.wf(),
                    self.size == start.size,
                    self.wrap_offset == start.wrap_offset,
                    self.grid_offset == start.grid_offset,
                    forall|q: (i32, i32, i32)| #[trigger] start.in_bounds(q) ==> self.cells@[self.slot(q)] == start.cells@[start.slot(q)] || self.cells@[self.slot(q)] is None,
                    *old(self) == start,
                    size.0 > 0,
                    size.1 > 0,
                    size.2 > 0,
                    x_end == ox + size.0,
                    y_end == oy + size.1,
                    z_end == oz + size.2,
                    new_position == (ox, oy, oz),
                    oy <= y < y_end,
                    oz <= z <= z_end,
                    cells@.len() == index3(size, new_position, (ox, y, z)),
                    forall|q: (i32, i32, i32)| #[trigger] start.in_bounds(q) && in_grid3(size, new_position, q) && !before3(q, (ox, y, z)) ==> self.cells@[self.slot(q)] == start.cells@[start.slot(q)],
                    forall|q: (i32, i32, i32)| #[trigger] start.in_bounds(q) && in_grid3(size, new_position, q) && before3(q, (ox, y, z)) ==> self.cells@[self.slot(q)] is None,
                    forall|q: (i32, i32, i32)| #[trigger] start.in_bounds(q) && !in_grid3(size, new_position, q) ==> self.cells@[self.slot(q)] == start.cells@[start.slot(q)],
                    forall|q: (i32, i32, i32)| #[trigger] in_grid3(size, new_position, q) && before3(q, (ox, y, z)) ==> {
                        &&& start.in_bounds(q) ==> cells@[index3(size, new_position, q)] == start.cells@[start.slot(q)]
                        &&& !start.in_bounds(q) ==> cells@[index3(size, new_position, q)] is Some
                    },
                    manage.try_ready(),
                    states.len() == cells@.len() + 1,
                    states[0] == *old(manage),
                    states[cells@.len() as int] == *manage,
                    forall|j: int| 0 <= j < cells@.len() ==> try_manager_step::<(i32, i32, i32), T, E, M>(states[j], #[trigger] fill_calls3(start.grid_size(), start.grid_offset(), size, new_position, cells@)[j], states[j + 1]),
                decreases z_end - z,
            {
                let mut x = ox;
                while x < x_end
                    invariant
                        self.wf(),
                        self.size == start.size,
                        self.wrap_offset == start.wrap_offset,
                        self.grid_offset == start.grid_offset,
                        forall|q: (i32, i32, i32)| #[trigger] start.in_bounds(q) ==> self.cells@[self.slot(q)] == start.cells@[start.slot(q)] || self.cells@[self.slot(q)] is None,
                        *old(self) == start,
                        x_end == ox + size.0,
                        y_end == oy + size.1,
                        z_end == oz + size.2,
                        new_position == (ox, oy, oz),
                        oy <= y < y_end,
                        oz <= z < z_end,
                        ox <= x <= x_end,
                        cells@.len() == index3(size, new_position, (x, y, z)),
                        forall|q: (i32, i32, i32)| #[trigger] start.in_bounds(q) && in_grid3(size, new_position, q) && !before3(q, (x, y, z)) ==> self.cells@[self.slot(q)] == start.cells@[start.slot(q)],
                        forall|q: (i32, i32, i32)| #[trigger] start.in_bounds(q) && in_grid3(size, new_position, q) && before3(q, (x, y, z)) ==> self.cells@[self.slot(q)] is None,
                        forall|q: (i32, i32, i32)| #[trigger] start.in_bounds(q) && !in_grid3(size, new_position, q) ==> self.cells@[self.slot(q)] == start.cells@[start.slot(q)],
                        forall|q: (i32, i32, i32)| #[trigger] in_grid3(size, new_position, q) && before3(q, (x, y, z)) ==> {
                            &&& start.in_bounds(q) ==> cells@[index3(size, new_position, q)] == start.cells@[start.slot(q)]
                            &&& !start.in_bounds(q) ==> cells@[index3(size, new_position, q)] is Some
                        },
                        manage.try_ready(),
                        states.len() == cells@.len() + 1,
                        states[0] == *old(manage),
                        states[cells@.len() as int] == *manage,
                        forall|j: int| 0 <= j < cells@.len() ==> try_manager_step::<(i32, i32, i32), T, E, M>(states[j], #[trigger] fill_calls3(start.grid_size(), start.grid_offset(), size, new_position, cells@)[j], states[j + 1]),
                    decreases x_end - x,
                {
                    let p = (x, y, z);
                    let ghost before = cells@;
                    let ghost m0 = *manage;
                    proof {
                        lemma_index3(size, new_position, p, p);
                        lemma_position3(size, new_position, before.len() as int, p);
                        assert(index3(size, new_position, p) == before.len());
                    }
                    match self.offset_index(p) {
                        Some(index) => {
                            proof {
                                assert forall|q: (i32, i32, i32)| #[trigger] start.in_bounds(q) && q != p implies slot3(self.size, self.wrap_offset, self.grid_offset, q) != index
                                    && 0 <= slot3(self.size, self.wrap_offset, self.grid_offset, q) < self.cells@.len() by {
                                    self.lemma_slot(q, p);
                                }
                            }
                            let ghost cells_before = self.cells@;
                            let v = self.cells[index].take();
                            cells.push(v);
                            proof {
                                assert forall|q: (i32, i32, i32)| #[trigger] start.in_bounds(q) && !in_grid3(size, new_position, q) implies self.cells@[self.slot(q)] == start.cells@[start.slot(q)] by {
                                    assert(q != p);
                                    assert(self.cells@[self.slot(q)] == cells_before[self.slot(q)]);
                                }
                                assert forall|q: (i32, i32, i32)| #[trigger] start.in_bounds(q) && in_grid3(size, new_position, q) && before3(q, ((x + 1) as i32, y, z)) implies self.cells@[self.slot(q)] is None by {
                                    if q != p {
                                        assert(self.cells@[self.slot(q)] == cells_before[self.slot(q)]);
                                    }
                                }
                            }
                        },
                        None => {
                            let res = manage.try_load(p);
                            match res {
                                Ok(v) => cells.push(Some(v)),
                                Err(e) => {
                                    let r: Result<Vec<Option<T>>, E> = Err(e);
                                    proof {
                                        assert(m0.try_loads(p, Err(r->Err_0), *manage));
                                        let call = ManagerCall::Load(p, vstd::pervasive::arbitrary());
                                        assert(try_manager_failure::<(i32, i32, i32), T, E, M>(states[before.len() as int], call, r->Err_0, *manage));
                                        lemma_try_manager_stops::<(i32, i32, i32), T, E, M>(*old(manage), fill_calls3(start.grid_size(), start.grid_offset(), size, new_position, cells@), states, call, r->Err_0, *manage);
                                        assert(position3(size, new_position, cells@.len() as int) == p);
                                        assert(cells@.len() < size.0 * size.1 * size.2);
                                        assert forall|q: (i32, i32, i32)| #[trigger] start.in_bounds(q) && in_grid3(size, new_position, q) implies {
                                            &&& index3(size, new_position, q) < cells@.len() ==> self.cells@[self.slot(q)] is None
                                            &&& !(index3(size, new_position, q) < cells@.len()) ==> self.cells@[self.slot(q)] == start.cells@[start.slot(q)]
                                        } by {
                                            lemma_index3(size, new_position, q, p);
                                            lemma_index3(size, new_position, p, q);
                                        }
                                    }
                                    return r;
                                },
                            }
                        },
                    }
                    proof {
                        assert forall|q: (i32, i32, i32)| #[trigger] in_grid3(size, new_position, q) && before3(q, ((x + 1) as i32, y, z)) implies {
                            &&& start.in_bounds(q) ==> cells@[index3(size, new_position, q)] == start.cells@[start.slot(q)]
                            &&& !start.in_bounds(q) ==> cells@[index3(size, new_position, q)] is Some
                        } by {
                            lemma_index3(size, new_position, q, p);
                            if q != p {
                                assert(cells@[index3(size, new_position, q)] == before[index3(size, new_position, q)]);
                            }
                        }
                        let prev_states = states;
                        states = states.push(*manage);
                        assert forall|j: int| 0 <= j < cells@.len() implies try_manager_step::<(i32, i32, i32), T, E, M>(states[j], #[trigger] fill_calls3(start.grid_size(), start.grid_offset(), size, new_position, cells@)[j], states[j + 1]) by {
                            if j < before.len() {
                                assert(fill_calls3(start.grid_size(), start.grid_offset(), size, new_position, cells@)[j] == fill_calls3(start.grid_size(), start.grid_offset(), size, new_position, before)[j]);
                                assert(try_manager_step::<(i32, i32, i32), T, E, M>(prev_states[j], fill_calls3(start.grid_size(), start.grid_offset(), size, new_position, before)[j], prev_states[j + 1]));
                            } else {
                                assert(j == before.len());
                                assert(position3(size, new_position, j) == p);
                            }
                        }
                    }
                    x = x + 1;
                }
                proof {
                    lemma_index3_next_row(size, new_position, y as int, z as int);
                }
                z = z + 1;
            }
            proof {
                lemma_index3_next_plane(size, new_position, y as int);
            }
            y = y + 1;
        }
        proof {
            lemma_index3_end(size, new_position);
            assert(forall|j: int| 0 <= j < cells@.len() ==> try_manager_step::<(i32, i32, i32), T, E, M>(states[j], #[trigger] fill_calls3(start.grid_size(), start.grid_offset(), size, new_position, cells@)[j], states[j + 1]));
        }
        Ok(cells)
    }

    /// Try to resize and reposition the grid using a fallible manager, stopping at the
    /// first error and returning it.
    ///
    /// The steps are those of [RollGrid3D::resize_and_reposition]. When an error stops a
    /// move, the offset has moved and the cells not yet reloaded keep the values of the
    /// cells they took over. When an error stops a resize, the grid keeps its size and
    /// offset; the cells handed to `unload`, the one whose unload failed included, and
    /// the cells already moved into the new grid, are left empty.
    /// On success the calls made on `manage` are those [RollGrid3D::try_managed_from] describes;
    /// on an error, the calls made and the state left are those [RollGrid3D::try_stopped_from]
    /// describes.
    /// See [TryCellManage].
    #[verifier::rlimit(40)]
    #[verifier::spinoff_prover]
#[verifier::loop_isolation(false)]
        pub fn try_resize_and_reposition<E, M: TryCellManage<(i32, i32, i32), T, E>>(
        &mut self,
        width: u32,
        height: u32,
        depth: u32,
        new_position: (i32, i32, i32),
        manage: M,
    ) -> (r: Result<(), E>)
        requires
            old(self).wf(),
            manage.try_ready(),
            width * height * depth > 0,
            (width, height, depth) != old(self).grid_size() ==> width * height * depth <= i32::MAX,
            new_position.0 + width <= i32::MAX,
            new_position.1 + height <= i32::MAX,
            new_position.2 + depth <= i32::MAX,
        ensures
            r is Ok ==> final(self).resized_from(old(self), (width, height, depth), new_position),
            r is Err ==> final(self).resize_stopped(old(self), (width, height, depth), new_position),
            (old(self).grid_size() == (width, height, depth) && old(self).grid_offset() == new_position) ==> r is Ok,
            r is Ok ==> final(self).try_managed_from(old(self), manage),
            r is Err ==> final(self).try_stopped_from(old(self), (width, height, depth), new_position, manage, r->Err_0),
    {
        let ghost manage0 = manage;
        let mut manage = manage;
        assert(width > 0 && height > 0 && depth > 0) by (nonlinear_arith)
            requires
                width * height * depth > 0,
        ;
        if width == self.size.0 && height == self.size.1 && depth == self.size.2 {
            let ghost start = *self;
            if self.grid_offset.0 != new_position.0 || self.grid_offset.1 != new_position.1 || self.grid_offset.2 != new_position.2 {
                let b = self.bounds();
                let src_bounds = Ghost(b);
                let plan = self.begin_reposition(new_position);
                proof {
                    start.lemma_moved(self);
                }
                let ghost mid = *self;
                let r = self.try_reload_planned_with(&plan, src_bounds, &mut manage);
                proof {
                    let size = start.grid_size();
                    let src = start.grid_offset();
                    assert forall|k: int| 0 <= k < plan@.len() implies #[trigger] self.move_calls(&start, plan@)[k] == self.reload_calls(&mid, plan@)[k] by {
                        let p = plan@[k].1;
                        assert(mid.in_bounds(p));
                        assert(mid@.contains_key(p) <==> start@.contains_key(prior3(size, src, new_position, p)));
                        if mid@.contains_key(p) {
                            assert(mid@[p] == start@[prior3(size, src, new_position, p)]);
                        }
                    }
                    assert(self.move_calls(&start, plan@) =~= self.reload_calls(&mid, plan@));
                    assert(is_reload_plan3(size, src, new_position, plan@));
                    if r is Err {
                        let e = r->Err_0;
                        let k = choose|k: int|
                            0 <= k < plan@.len() && mid@.contains_key(plan@[k].1) && #[trigger] try_manager_stops::<(i32, i32, i32), T, E, M>(
                                manage0,
                                self.reload_calls(&mid, plan@).take(k),
                                ManagerCall::Reload(plan@[k].0, plan@[k].1, mid@[plan@[k].1], self@[plan@[k].1]),
                                e,
                            ) && forall|j: int| k < j < plan@.len() && mid@.contains_key(plan@[j].1) ==> #[trigger] self@[plan@[j].1] == mid@[plan@[j].1];
                        assert forall|j: int| 0 <= j < plan@.len() implies (self@.contains_key((#[trigger] plan@[j]).1) <==> start@.contains_key(plan@[j].0)) by {
                            assert(mid.in_bounds(plan@[j].1));
                        }
                        assert(mid.in_bounds(plan@[k].1));
                        assert(mid@[plan@[k].1] == start@[plan@[k].0]);
                        assert(self.move_calls(&start, plan@).take(k) == self.reload_calls(&mid, plan@).take(k));
                        assert forall|j: int| k < j < plan@.len() && start@.contains_key(plan@[j].0) implies #[trigger] self@[plan@[j].1] == start@[plan@[j].0] by {
                            assert(mid.in_bounds(plan@[j].1));
                            assert(mid@[plan@[j].1] == start@[plan@[j].0]);
                        }
                        assert(self.move_stopped(&start, plan@, manage0, e));
                    }
                }
                return r;
            }
            proof {
                let plan = Seq::<((i32, i32, i32), (i32, i32, i32))>::empty();
                assert(is_reload_plan3(start.grid_size(), start.grid_offset(), new_position, plan));
                lemma_try_manager_runs::<(i32, i32, i32), T, E, M>(manage0, self.move_calls(&start, plan), seq![manage0]);
            }
            return Ok(());
        }
        let size = (width, height, depth);
        let unload = unload_plan3(self.size, self.grid_offset, size, new_position);
        let ghost start = *self;
        let ghost mut states: Seq<M> = seq![manage];
        let mut i: usize = 0;
        while i < unload.len()
            invariant
                self.wf(),
                self.size == start.size,
                self.wrap_offset == start.wrap_offset,
                self.grid_offset == start.grid_offset,
                forall|k: int| 0 <= k < unload@.len() ==> start.in_bounds(#[trigger] unload@[k]) && !in_grid3(size, new_position, unload@[k]),
                forall|q: (i32, i32, i32)| #[trigger] start.in_bounds(q) && in_grid3(size, new_position, q) ==> self.cells@[self.slot(q)] == start.cells@[start.slot(q)],
                forall|q: (i32, i32, i32)| #[trigger] start.in_bounds(q) ==> self.cells@[self.slot(q)] == start.cells@[start.slot(q)] || self.cells@[self.slot(q)] is None,
                !(width == start.size.0 && height == start.size.1 && depth == start.size.2),
                *old(self) == start,
                manage.try_ready(),
                forall|a: int, b: int| 0 <= a < b < unload@.len() ==> #[trigger] unload@[a] != #[trigger] unload@[b],
                forall|k: int| i <= k < unload@.len() ==> self.cells@[self.slot(#[trigger] unload@[k])] == start.cells@[start.slot(unload@[k])],
                forall|k: int| 0 <= k < i ==> self.cells@[self.slot(#[trigger] unload@[k])] is None,
                0 <= i <= unload@.len(),
                states.len() == i + 1,
                states[0] == manage0,
                states[i as int] == manage,
                forall|k: int| 0 <= k < i ==> try_manager_step::<(i32, i32, i32), T, E, M>(states[k], #[trigger] Self::unload_calls(&start, unload@)[k], states[k + 1]),
            decreases unload@.len() - i,
        {
            let p = unload[i];
            let index = self.offset_index(p).unwrap();
            proof {
                assert forall|q: (i32, i32, i32)| #[trigger] start.in_bounds(q) && q != p implies slot3(self.size, self.wrap_offset, self.grid_offset, q) != index
                    && 0 <= slot3(self.size, self.wrap_offset, self.grid_offset, q) < self.cells@.len() by {
                    self.lemma_slot(q, p);
                }
                assert(self.cells@[index as int] == start.cells@[start.slot(p)]);
            }
            let ghost m0 = manage;
            let taken = self.cells[index].take();
            match taken {
                Some(v) => {
                    let ghost v0 = v;
                    let res = manage.try_unload(p, v);
                    match res {
                        Ok(()) => {
                            proof {
                                lemma_try_unload_step::<(i32, i32, i32), T, E, M>(m0, p, v0, res, manage);
                            }
                        },
                        Err(e) => {
                            let r: Result<(), E> = Err(e);
                            proof {
                                assert forall|q: (i32, i32, i32)| #[trigger] self@.contains_key(q) implies start@.contains_key(q) && self@[q] == start@[q] by {
                                    assert(start.in_bounds(q));
                                }
                                let calls = Self::unload_calls(&start, unload@).take(i as int);
                                assert forall|k: int| 0 <= k < calls.len() implies try_manager_step::<(i32, i32, i32), T, E, M>(states[k], #[trigger] calls[k], states[k + 1]) by {
                                    assert(calls[k] == Self::unload_calls(&start, unload@)[k]);
                                }
                                assert(m0.try_unloads(p, v0, Err(r->Err_0), manage));
                                lemma_try_manager_stops::<(i32, i32, i32), T, E, M>(manage0, calls, states, ManagerCall::Unload(p, v0), r->Err_0, manage);
                                assert(start@.contains_key(unload@[i as int]) && start@[unload@[i as int]] == v0);
                                assert forall|q: (i32, i32, i32)| #[trigger] self@.contains_key(q) <==> (start@.contains_key(q) && !unload@.take(i + 1).contains(q)) by {
                                    if start.in_bounds(q) {
                                        if unload@.take(i + 1).contains(q) {
                                            let k = choose|k: int| 0 <= k < i + 1 && #[trigger] unload@.take(i + 1)[k] == q;
                                            assert(unload@[k] == q);
                                        } else if !in_grid3(size, new_position, q) {
                                            assert(unload@.contains(q));
                                            let k = choose|k: int| 0 <= k < unload@.len() && unload@[k] == q;
                                            if k <= i {
                                                assert(unload@.take(i + 1)[k] == q);
                                            }
                                            assert(self.cells@[self.slot(unload@[k])] == start.cells@[start.slot(unload@[k])]);
                                        }
                                    }
                                }
                                assert(self.unload_stopped(&start, unload@, manage0, r->Err_0));
                                assert(is_unload_plan3(start.grid_size(), start.grid_offset(), size, new_position, unload@));
                            }
                            return r;
                        },
                    }
                },
                None => {},
            }
            proof {
                let prev_states = states;
                states = states.push(manage);
                assert forall|k: int| 0 <= k < i + 1 implies try_manager_step::<(i32, i32, i32), T, E, M>(states[k], #[trigger] Self::unload_calls(&start, unload@)[k], states[k + 1]) by {
                    if k < i {
                        assert(try_manager_step::<(i32, i32, i32), T, E, M>(prev_states[k], Self::unload_calls(&start, unload@)[k], prev_states[k + 1]));
                    } else {
                        assert(unload@[k] == p);
                        assert(start.in_bounds(p));
                    }
                }
                assert forall|k: int| i + 1 <= k < unload@.len() implies self.cells@[self.slot(#[trigger] unload@[k])] == start.cells@[start.slot(unload@[k])] by {
                    assert(unload@[i as int] != unload@[k]);
                    self.lemma_slot(unload@[k], p);
                }
                assert forall|k: int| 0 <= k < i + 1 implies self.cells@[self.slot(#[trigger] unload@[k])] is None by {
                    if k < i {
                        assert(unload@[k] != unload@[i as int]);
                        self.lemma_slot(unload@[k], p);
                    }
                }
            }
            i = i + 1;
        }
        let ghost before_fill = *self;
        let ghost m_mid = manage;
        let filled = self.try_fill_resized(size, new_position, &mut manage);
        proof {
            assert(before_fill.grid_size() == start.grid_size() && before_fill.grid_offset() == start.grid_offset());
        }
        let cells = match filled {
            Ok(cells) => cells,
            Err(e) => {
                let r: Result<(), E> = Err(e);
                proof {
                    assert forall|q: (i32, i32, i32)| #[trigger] self@.contains_key(q) implies start@.contains_key(q) && self@[q] == start@[q] by {
                        assert(start.in_bounds(q));
                        assert(before_fill.in_bounds(q));
                    }
                    let (fc, v) = choose|fc: Seq<Option<T>>, v: T|
                        fc.len() < size.0 * size.1 * size.2 && !before_fill.in_bounds(position3(size, new_position, fc.len() as int)) && #[trigger] try_manager_stops::<(i32, i32, i32), T, E, M>(
                            m_mid,
                            fill_calls3(before_fill.grid_size(), before_fill.grid_offset(), size, new_position, fc),
                            ManagerCall::Load(position3(size, new_position, fc.len() as int), v),
                            filled->Err_0,
                        ) && forall|q: (i32, i32, i32)| #[trigger] before_fill.in_bounds(q) && in_grid3(size, new_position, q) ==> {
                            &&& index3(size, new_position, q) < fc.len() ==> self.cells@[self.slot(q)] is None
                            &&& !(index3(size, new_position, q) < fc.len()) ==> self.cells@[self.slot(q)] == before_fill.cells@[before_fill.slot(q)]
                        };
                    assert(filled->Err_0 == r->Err_0);
                    let p = position3(size, new_position, fc.len() as int);
                    lemma_try_manager_stops_after::<(i32, i32, i32), T, E, M>(manage0, Self::unload_calls(&start, unload@), states, fill_calls3(start.grid_size(), start.grid_offset(), size, new_position, fc), ManagerCall::Load(p, v), r->Err_0);
                    assert forall|q: (i32, i32, i32)| #[trigger] self@.contains_key(q) <==> (start@.contains_key(q) && !unload@.contains(q) && !(in_grid3(size, new_position, q) && index3(size, new_position, q) < fc.len())) by {
                        if start.in_bounds(q) {
                            assert(before_fill.in_bounds(q));
                            if unload@.contains(q) {
                                let k = choose|k: int| 0 <= k < unload@.len() && unload@[k] == q;
                                assert(before_fill.cells@[before_fill.slot(unload@[k])] is None);
                            } else if !in_grid3(size, new_position, q) {
                                assert(unload@.contains(q));
                            }
                        }
                    }
                    assert(self.load_stopped(&start, size, new_position, unload@, manage0, r->Err_0));
                    assert(is_unload_plan3(start.grid_size(), start.grid_offset(), size, new_position, unload@));
                }
                return r;
            },
        };
        let ghost fill_cells = cells@;
        self.cells = cells;
        self.size = size;
        self.grid_offset = new_position;
        self.wrap_offset = (0, 0, 0);
        proof {
            assert forall|q: (i32, i32, i32)| #[trigger] self.in_bounds(q) implies self.slot(q) == index3(size, new_position, q) && 0 <= self.slot(q) < self.cells@.len() by {
                lemma_index3(size, new_position, q, q);
            }
            assert forall|q: (i32, i32, i32)| #[trigger] self.in_bounds(q) && !start.in_bounds(q) implies self@.contains_key(q) by {
                assert(in_grid3(size, new_position, q));
                assert(self.slot(q) == index3(size, new_position, q));
            }
            let u = unload@.len() as int;
            let fill = choose|fs: Seq<M>| fs.len() == fill_cells.len() + 1 && fs[0] == m_mid
                && forall|j: int| 0 <= j < fill_cells.len() ==> try_manager_step::<(i32, i32, i32), T, E, M>(fs[j], #[trigger] fill_calls3(start.grid_size(), start.grid_offset(), size, new_position, fill_cells)[j], fs[j + 1]);
            assert forall|j: int| 0 <= j < fill_cells.len() implies #[trigger] self.load_calls(&start)[j] == fill_calls3(start.grid_size(), start.grid_offset(), size, new_position, fill_cells)[j] by {
                let q = position3(size, new_position, j);
                lemma_position3(size, new_position, j, q);
                assert(self.in_bounds(q));
                assert(self.slot(q) == j);
            }
            assert(self.load_calls(&start) =~= fill_calls3(start.grid_size(), start.grid_offset(), size, new_position, fill_cells));
            let calls = Self::unload_calls(&start, unload@) + self.load_calls(&start);
            let all = states + fill.skip(1);
            assert forall|k: int| 0 <= k < calls.len() implies try_manager_step::<(i32, i32, i32), T, E, M>(all[k], #[trigger] calls[k], all[k + 1]) by {
                if k < u {
                    assert(calls[k] == Self::unload_calls(&start, unload@)[k]);
                    assert(all[k] == states[k]);
                    assert(all[k + 1] == states[k + 1]);
                } else {
                    let j = k - u;
                    assert(calls[k] == fill_calls3(start.grid_size(), start.grid_offset(), size, new_position, fill_cells)[j]);
                    assert(try_manager_step::<(i32, i32, i32), T, E, M>(fill[j], fill_calls3(start.grid_size(), start.grid_offset(), size, new_position, fill_cells)[j], fill[j + 1]));
                    if j == 0 {
                        assert(all[k] == states[u]);
                    } else {
                        assert(all[k] == fill[j]);
                    }
                    assert(all[k + 1] == fill[j + 1]);
                }
            }
            assert(all[0] == manage0);
            lemma_try_manager_runs::<(i32, i32, i32), T, E, M>(manage0, calls, all);
            assert(is_unload_plan3(start.grid_size(), start.grid_offset(), size, new_position, unload@));
        }
        Ok(())
    }

    /// Inflate the size by `inflate`, keeping the bounds centered.
    ///
    /// If the size is `(2, 2, 2)` with an offset of `(1, 1, 1)`, and you want to inflate by `(1, 1, 1)`.
    /// The result of that operation would have a size of `(4, 4, 4)` and an offset of `(0, 0, 0)`.
    /// The calls made on `manage` are those [RollGrid3D::managed_from] describes.
    /// See [CellManage].
    pub fn inflate_size<M: CellManage<(i32, i32, i32), T>>(&mut self, inflate: (u32, u32, u32), manage: M)
        requires
            old(self).wf(),
            manage.ready(),
            old(self).grid_size().0 + 2 * inflate.0 <= u32::MAX,
            old(self).grid_size().1 + 2 * inflate.1 <= u32::MAX,
            old(self).grid_size().2 + 2 * inflate.2 <= u32::MAX,
            old(self).grid_offset().0 - inflate.0 >= i32::MIN,
            old(self).grid_offset().1 - inflate.1 >= i32::MIN,
            old(self).grid_offset().2 - inflate.2 >= i32::MIN,
            old(self).grid_offset().0 + old(self).grid_size().0 + inflate.0 <= i32::MAX,
            old(self).grid_offset().1 + old(self).grid_size().1 + inflate.1 <= i32::MAX,
            old(self).grid_offset().2 + old(self).grid_size().2 + inflate.2 <= i32::MAX,
            inflate != (0u32, 0u32, 0u32) ==> (old(self).grid_size().0 + 2 * inflate.0) * (old(self).grid_size().1 + 2 * inflate.1) * (old(self).grid_size().2 + 2 * inflate.2) <= i32::MAX,
        ensures
            final(self).grid_offset().0 == old(self).grid_offset().0 - inflate.0,
            final(self).grid_offset().0 + final(self).grid_size().0 == old(self).grid_offset().0 + old(self).grid_size().0 + inflate.0,
            final(self).grid_offset().1 == old(self).grid_offset().1 - inflate.1,
            final(self).grid_offset().1 + final(self).grid_size().1 == old(self).grid_offset().1 + old(self).grid_size().1 + inflate.1,
            final(self).grid_offset().2 == old(self).grid_offset().2 - inflate.2,
            final(self).grid_offset().2 + final(self).grid_size().2 == old(self).grid_offset().2 + old(self).grid_size().2 + inflate.2,
            final(self).resized_from(
                old(self),
                inflated3(old(self).grid_size(), old(self).grid_offset(), inflate).0,
                inflated3(old(self).grid_size(), old(self).grid_offset(), inflate).1,
            ),
            final(self).managed_from(old(self), manage),
    {
        let width = self.size.0 + inflate.0 * 2;
        let height = self.size.1 + inflate.1 * 2;
        let depth = self.size.2 + inflate.2 * 2;
        let position = (
            (self.grid_offset.0 as i64 - inflate.0 as i64) as i32,
            (self.grid_offset.1 as i64 - inflate.1 as i64) as i32,
            (self.grid_offset.2 as i64 - inflate.2 as i64) as i32,
        );
        assert(width * height * depth > 0) by (nonlinear_arith)
            requires
                width > 0,
                height > 0,
                depth > 0,
        ;
        self.resize_and_reposition(width, height, depth, position, manage);
    }

    /// Try to inflate the size by `inflate` using a fallible manager, keeping the bounds centered.
    /// On success the calls made on `manage` are those [RollGrid3D::try_managed_from] describes;
    /// on an error, the calls made and the state left are those [RollGrid3D::try_stopped_from]
    /// describes.
    /// See [TryCellManage].
    pub fn try_inflate_size<E, M: TryCellManage<(i32, i32, i32), T, E>>(&mut self, inflate: (u32, u32, u32), manage: M) -> (r: Result<(), E>)
        requires
            old(self).wf(),
            manage.try_ready(),
            old(self).grid_size().0 + 2 * inflate.0 <= u32::MAX,
            old(self).grid_size().1 + 2 * inflate.1 <= u32::MAX,
            old(self).grid_size().2 + 2 * inflate.2 <= u32::MAX,
            old(self).grid_offset().0 - inflate.0 >= i32::MIN,
            old(self).grid_offset().1 - inflate.1 >= i32::MIN,
            old(self).grid_offset().2 - inflate.2 >= i32::MIN,
            old(self).grid_offset().0 + old(self).grid_size().0 + inflate.0 <= i32::MAX,
            old(self).grid_offset().1 + old(self).grid_size().1 + inflate.1 <= i32::MAX,
            old(self).grid_offset().2 + old(self).grid_size().2 + inflate.2 <= i32::MAX,
            inflate != (0u32, 0u32, 0u32) ==> (old(self).grid_size().0 + 2 * inflate.0) * (old(self).grid_size().1 + 2 * inflate.1) * (old(self).grid_size().2 + 2 * inflate.2) <= i32::MAX,
        ensures
            r is Ok ==> final(self).grid_offset().0 == old(self).grid_offset().0 - inflate.0,
            r is Ok ==> final(self).grid_offset().0 + final(self).grid_size().0 == old(self).grid_offset().0 + old(self).grid_size().0 + inflate.0,
            r is Ok ==> final(self).grid_offset().1 == old(self).grid_offset().1 - inflate.1,
            r is Ok ==> final(self).grid_offset().1 + final(self).grid_size().1 == old(self).grid_offset().1 + old(self).grid_size().1 + inflate.1,
            r is Ok ==> final(self).grid_offset().2 == old(self).grid_offset().2 - inflate.2,
            r is Ok ==> final(self).grid_offset().2 + final(self).grid_size().2 == old(self).grid_offset().2 + old(self).grid_size().2 + inflate.2,
            r is Ok ==> final(self).try_managed_from(old(self), manage),
            r is Err ==> final(self).try_stopped_from(
                old(self),
                inflated3(old(self).grid_size(), old(self).grid_offset(), inflate).0,
                inflated3(old(self).grid_size(), old(self).grid_offset(), inflate).1,
                manage,
                r->Err_0,
            ),
            r is Ok ==> final(self).resized_from(
                old(self),
                inflated3(old(self).grid_size(), old(self).grid_offset(), inflate).0,
                inflated3(old(self).grid_size(), old(self).grid_offset(), inflate).1,
            ),
            r is Err ==> final(self).resize_stopped(
                old(self),
                inflated3(old(self).grid_size(), old(self).grid_offset(), inflate).0,
                inflated3(old(self).grid_size(), old(self).grid_offset(), inflate).1,
            ),
            inflate == (0u32, 0u32, 0u32) ==> r is Ok,
    {
        let width = self.size.0 + inflate.0 * 2;
        let height = self.size.1 + inflate.1 * 2;
        let depth = self.size.2 + inflate.2 * 2;
        let position = (
            (self.grid_offset.0 as i64 - inflate.0 as i64) as i32,
            (self.grid_offset.1 as i64 - inflate.1 as i64) as i32,
            (self.grid_offset.2 as i64 - inflate.2 as i64) as i32,
        );
        assert(width * height * depth > 0) by (nonlinear_arith)
            requires
                width > 0,
                height > 0,
                depth > 0,
        ;
        self.try_resize_and_reposition(width, height, depth, position, manage)
    }

    /// Deflate the size by `deflate`, keeping the bounds centered.
    ///
    /// If the size is `(4, 4, 4)` with an offset of `(0, 0, 0)`, and you want to deflate by `(1, 1, 1)`.
    /// The result of that operation would have a size of `(2, 2, 2)` and an offset of `(1, 1, 1)`.
    /// The calls made on `manage` are those [RollGrid3D::managed_from] describes.
    /// See [CellManage].
    pub fn deflate_size<M: CellManage<(i32, i32, i32), T>>(&mut self, deflate: (u32, u32, u32), manage: M)
        requires
            old(self).wf(),
            manage.ready(),
            2 * deflate.0 < old(self).grid_size().0,
            2 * deflate.1 < old(self).grid_size().1,
            2 * deflate.2 < old(self).grid_size().2,
            deflate != (0u32, 0u32, 0u32) ==> (old(self).grid_size().0 - 2 * deflate.0) * (old(self).grid_size().1 - 2 * deflate.1) * (old(self).grid_size().2 - 2 * deflate.2) <= i32::MAX,
        ensures
            final(self).grid_offset().0 == old(self).grid_offset().0 + deflate.0,
            final(self).grid_offset().0 + final(self).grid_size().0 == old(self).grid_offset().0 + old(self).grid_size().0 - deflate.0,
            final(self).grid_offset().1 == old(self).grid_offset().1 + deflate.1,
            final(self).grid_offset().1 + final(self).grid_size().1 == old(self).grid_offset().1 + old(self).grid_size().1 - deflate.1,
            final(self).grid_offset().2 == old(self).grid_offset().2 + deflate.2,
            final(self).grid_offset().2 + final(self).grid_size().2 == old(self).grid_offset().2 + old(self).grid_size().2 - deflate.2,
            final(self).resized_from(
                old(self),
                deflated3(old(self).grid_size(), old(self).grid_offset(), deflate).0,
                deflated3(old(self).grid_size(), old(self).grid_offset(), deflate).1,
            ),
            final(self).managed_from(old(self), manage),
    {
        let width = self.size.0 - deflate.0 * 2;
        let height = self.size.1 - deflate.1 * 2;
        let depth = self.size.2 - deflate.2 * 2;
        let position = (
            (self.grid_offset.0 as i64 + deflate.0 as i64) as i32,
            (self.grid_offset.1 as i64 + deflate.1 as i64) as i32,
            (self.grid_offset.2 as i64 + deflate.2 as i64) as i32,
        );
        assert(width * height * depth > 0) by (nonlinear_arith)
            requires
                0 < width,
                0 < height,
                0 < depth,
        ;
        self.resize_and_reposition(width, height, depth, position, manage);
    }

    /// Try to deflate the size by `deflate` using a fallible manager, keeping the bounds centered.
    /// On success the calls made on `manage` are those [RollGrid3D::try_managed_from] describes;
    /// on an error, the calls made and the state left are those [RollGrid3D::try_stopped_from]
    /// describes.
    /// See [TryCellManage].
    pub fn try_deflate_size<E, M: TryCellManage<(i32, i32, i32), T, E>>(&mut self, deflate: (u32, u32, u32), manage: M) -> (r: Result<(), E>)
        requires
            old(self).wf(),
            manage.try_ready(),
            2 * deflate.0 < old(self).grid_size().0,
            2 * deflate.1 < old(self).grid_size().1,
            2 * deflate.2 < old(self).grid_size().2,
            deflate != (0u32, 0u32, 0u32) ==> (old(self).grid_size().0 - 2 * deflate.0) * (old(self).grid_size().1 - 2 * deflate.1) * (old(self).grid_size().2 - 2 * deflate.2) <= i32::MAX,
        ensures
            r is Ok ==> final(self).grid_offset().0 == old(self).grid_offset().0 + deflate.0,
            r is Ok ==> final(self).grid_offset().0 + final(self).grid_size().0 == old(self).grid_offset().0 + old(self).grid_size().0 - deflate.0,
            r is Ok ==> final(self).grid_offset().1 == old(self).grid_offset().1 + deflate.1,
            r is Ok ==> final(self).grid_offset().1 + final(self).grid_size().1 == old(self).grid_offset().1 + old(self).grid_size().1 - deflate.1,
            r is Ok ==> final(self).grid_offset().2 == old(self).grid_offset().2 + deflate.2,
            r is Ok ==> final(self).grid_offset().2 + final(self).grid_size().2 == old(self).grid_offset().2 + old(self).grid_size().2 - deflate.2,
            r is Ok ==> final(self).try_managed_from(old(self), manage),
            r is Err ==> final(self).try_stopped_from(
                old(self),
                deflated3(old(self).grid_size(), old(self).grid_offset(), deflate).0,
                deflated3(old(self).grid_size(), old(self).grid_offset(), deflate).1,
                manage,
                r->Err_0,
            ),
            r is Ok ==> final(self).resized_from(
                old(self),
                deflated3(old(self).grid_size(), old(self).grid_offset(), deflate).0,
                deflated3(old(self).grid_size(), old(self).grid_offset(), deflate).1,
            ),
            r is Err ==> final(self).resize_stopped(
                old(self),
                deflated3(old(self).grid_size(), old(self).grid_offset(), deflate).0,
                deflated3(old(self).grid_size(), old(self).grid_offset(), deflate).1,
            ),
            deflate == (0u32, 0u32, 0u32) ==> r is Ok,
    {
        let width = self.size.0 - deflate.0 * 2;
        let height = self.size.1 - deflate.1 * 2;
        let depth = self.size.2 - deflate.2 * 2;
        let position = (
            (self.grid_offset.0 as i64 + deflate.0 as i64) as i32,
            (self.grid_offset.1 as i64 + deflate.1 as i64) as i32,
            (self.grid_offset.2 as i64 + deflate.2 as i64) as i32,
        );
        assert(width * height * depth > 0) by (nonlinear_arith)
            requires
                0 < width,
                0 < height,
                0 < depth,
        ;
        self.try_resize_and_reposition(width, height, depth, position, manage)
    }

    /// Resize the grid without changing the offset.
    /// The calls made on `manage` are those [RollGrid3D::managed_from] describes.
    /// See [CellManage].
    pub fn resize<M: CellManage<(i32, i32, i32), T>>(&mut self, width: u32, height: u32, depth: u32, manage: M)
        requires
            old(self).wf(),
            manage.ready(),
            width * height * depth > 0,
            (width, height, depth) != old(self).grid_size() ==> width * height * depth <= i32::MAX,
            old(self).grid_offset().0 + width <= i32::MAX,
            old(self).grid_offset().1 + height <= i32::MAX,
            old(self).grid_offset().2 + depth <= i32::MAX,
        ensures
            final(self).resized_from(old(self), (width, height, depth), old(self).grid_offset()),
            final(self).managed_from(old(self), manage),
    {
        let position = self.grid_offset;
        self.resize_and_reposition(width, height, depth, position, manage);
    }

    /// Try to resize the grid with a fallible manager without changing the offset.
    /// On success the calls made on `manage` are those [RollGrid3D::try_managed_from] describes;
    /// on an error, the calls made and the state left are those [RollGrid3D::try_stopped_from]
    /// describes.
    /// See [TryCellManage].
    pub fn try_resize<E, M: TryCellManage<(i32, i32, i32), T, E>>(&mut self, width: u32, height: u32, depth: u32, manage: M) -> (r: Result<(), E>)
        requires
            old(self).wf(),
            manage.try_ready(),
            width * height * depth > 0,
            (width, height, depth) != old(self).grid_size() ==> width * height * depth <= i32::MAX,
            old(self).grid_offset().0 + width <= i32::MAX,
            old(self).grid_offset().1 + height <= i32::MAX,
            old(self).grid_offset().2 + depth <= i32::MAX,
        ensures
            r is Ok ==> final(self).try_managed_from(old(self), manage),
            r is Err ==> final(self).try_stopped_from(old(self), (width, height, depth), old(self).grid_offset(), manage, r->Err_0),
            r is Ok ==> final(self).resized_from(old(self), (width, height, depth), old(self).grid_offset()),
            r is Err ==> final(self).resize_stopped(old(self), (width, height, depth), old(self).grid_offset()),
            (width, height, depth) == old(self).grid_size() ==> r is Ok,
    {
        let position = self.grid_offset;
        self.try_resize_and_reposition(width, height, depth, position, manage)
    }

    /// Reposition the offset of the grid and reload the slots that are changed.
    ///
    /// The reload function takes the old position, the new position, and
    /// a mutable reference to the cell where the initial value of the cell
    /// when called is the value at `old_position`. You want to change the
    /// cell to the correct value for a cell at `new_position`.
    /// The cells are reloaded in the order given by [reposition_plan3].
    pub fn reposition<F: FnMut((i32, i32, i32), (i32, i32, i32), &mut T)>(&mut self, position: (i32, i32, i32), reload: F)
        requires
            old(self).wf(),
            placements_fit3(old(self).grid_size(), old(self).grid_offset(), position),
            forall|a: (i32, i32, i32), b: (i32, i32, i32), c: &mut T| call_requires(reload, (a, b, c)),
        ensures
            final(self).wf(),
            final(self).grid_size() == old(self).grid_size(),
            final(self).grid_offset() == position,
            forall|p: (i32, i32, i32)| old(self).in_bounds(p) && final(self).in_bounds(p) ==> (#[trigger] final(self)@.contains_key(p) <==> old(self)@.contains_key(p)),
            forall|p: (i32, i32, i32)| old(self).in_bounds(p) && final(self).in_bounds(p) && old(self)@.contains_key(p) ==> #[trigger] final(self)@[p] == old(self)@[p],
            old(self).full() ==> final(self).full(),
            forall|p: (i32, i32, i32)|
                #![trigger enters3(old(self).grid_size(), old(self).grid_offset(), position, p)]
                enters3(old(self).grid_size(), old(self).grid_offset(), position, p) && old(self)@.contains_key(prior3(old(self).grid_size(), old(self).grid_offset(), position, p))
                    ==> exists|c: &mut T|
                    *c == old(self)@[prior3(old(self).grid_size(), old(self).grid_offset(), position, p)] && *final(c) == final(self)@[p]
                        && #[trigger] call_ensures(reload, (prior3(old(self).grid_size(), old(self).grid_offset(), position, p), p, c), ()),
    {
        if self.grid_offset.0 == position.0 && self.grid_offset.1 == position.1 && self.grid_offset.2 == position.2 {
            return;
        }
        let b = self.bounds();
        let src_bounds = Ghost(b);
        let ghost start = *self;
        let plan = self.begin_reposition(position);
        proof {
            start.lemma_moved(self);
        }
        let ghost mid = *self;
        self.reload_planned(&plan, src_bounds, reload);
        proof {
            let size = start.grid_size();
            let src = start.grid_offset();
            assert forall|p: (i32, i32, i32)|
                #[trigger] enters3(size, src, position, p) && start@.contains_key(prior3(size, src, position, p)) implies exists|c: &mut T|
                *c == start@[prior3(size, src, position, p)] && *final(c) == self@[p]
                    && call_ensures(reload, (prior3(size, src, position, p), p, c), ()) by {
                let k = choose|k: int| 0 <= k < plan@.len() && (#[trigger] plan@[k]).1 == p;
                assert(mid.in_bounds(p));
                assert(mid@.contains_key(p));
                assert(mid@[p] == start@[prior3(size, src, position, p)]);
                assert(plan@[k].0 == prior3(size, src, position, p));
            }
        }
    }

    /// Try to reposition the offset of the grid and reload the slots that are changed,
    /// stopping at the first error of the reload function and returning it.
    ///
    /// The offset is moved to `position` in either case. The cells are reloaded in the
    /// order given by [reloads_before3]; on an error, which is the error that reload gave,
    /// the cells after the one whose reload failed keep the values of the cells they took
    /// over.
    pub fn try_reposition<E, F: FnMut((i32, i32, i32), (i32, i32, i32), &mut T) -> Result<(), E>>(&mut self, position: (i32, i32, i32), reload: F) -> (r: Result<(), E>)
        requires
            old(self).wf(),
            placements_fit3(old(self).grid_size(), old(self).grid_offset(), position),
            forall|a: (i32, i32, i32), b: (i32, i32, i32), c: &mut T| call_requires(reload, (a, b, c)),
        ensures
            final(self).wf(),
            final(self).grid_size() == old(self).grid_size(),
            final(self).grid_offset() == position,
            forall|p: (i32, i32, i32)| old(self).in_bounds(p) && final(self).in_bounds(p) ==> (#[trigger] final(self)@.contains_key(p) <==> old(self)@.contains_key(p)),
            forall|p: (i32, i32, i32)| old(self).in_bounds(p) && final(self).in_bounds(p) && old(self)@.contains_key(p) ==> #[trigger] final(self)@[p] == old(self)@[p],
            old(self).full() ==> final(self).full(),
            old(self).grid_offset() == position ==> r is Ok,
            r is Ok ==> forall|p: (i32, i32, i32)|
                #![trigger enters3(old(self).grid_size(), old(self).grid_offset(), position, p)]
                enters3(old(self).grid_size(), old(self).grid_offset(), position, p) && old(self)@.contains_key(prior3(old(self).grid_size(), old(self).grid_offset(), position, p))
                    ==> exists|c: &mut T, res: Result<(), E>|
                    *c == old(self)@[prior3(old(self).grid_size(), old(self).grid_offset(), position, p)] && *final(c) == final(self)@[p]
                        && #[trigger] call_ensures(reload, (prior3(old(self).grid_size(), old(self).grid_offset(), position, p), p, c), res) && res is Ok,
            r is Err ==> exists|f: (i32, i32, i32)|
                #![trigger enters3(old(self).grid_size(), old(self).grid_offset(), position, f)]
                enters3(old(self).grid_size(), old(self).grid_offset(), position, f) && old(self)@.contains_key(prior3(old(self).grid_size(), old(self).grid_offset(), position, f)) && {
                    &&& exists|c: &mut T, res: Result<(), E>|
                        *c == old(self)@[prior3(old(self).grid_size(), old(self).grid_offset(), position, f)] && *final(c) == final(self)@[f] && #[trigger] call_ensures(reload, (prior3(old(self).grid_size(), old(self).grid_offset(), position, f), f, c), res) && res is Err && res->Err_0 == r->Err_0
                    &&& forall|p: (i32, i32, i32)|
                        #![trigger enters3(old(self).grid_size(), old(self).grid_offset(), position, p)]
                        enters3(old(self).grid_size(), old(self).grid_offset(), position, p) && old(self)@.contains_key(prior3(old(self).grid_size(), old(self).grid_offset(), position, p)) && reloads_before3(old(self).grid_size(), old(self).grid_offset(), position, p, f) ==> exists|c: &mut T, res: Result<(), E>|
                            *c == old(self)@[prior3(old(self).grid_size(), old(self).grid_offset(), position, p)] && *final(c) == final(self)@[p] && #[trigger] call_ensures(reload, (prior3(old(self).grid_size(), old(self).grid_offset(), position, p), p, c), res) && res is Ok
                    &&& forall|p: (i32, i32, i32)|
                        #![trigger enters3(old(self).grid_size(), old(self).grid_offset(), position, p)]
                        enters3(old(self).grid_size(), old(self).grid_offset(), position, p) && old(self)@.contains_key(prior3(old(self).grid_size(), old(self).grid_offset(), position, p)) && p != f && !reloads_before3(old(self).grid_size(), old(self).grid_offset(), position, p, f) ==> final(self)@[p] == old(self)@[prior3(old(self).grid_size(), old(self).grid_offset(), position, p)]
                },
    {
        if self.grid_offset.0 == position.0 && self.grid_offset.1 == position.1 && self.grid_offset.2 == position.2 {
            return Ok(());
        }
        let b = self.bounds();
        let src_bounds = Ghost(b);
        let ghost start = *self;
        let plan = self.begin_reposition(position);
        proof {
            start.lemma_moved(self);
        }
        let ghost mid = *self;
        let r = self.try_reload_planned(&plan, src_bounds, reload);
        proof {
            let size = start.grid_size();
            let src = start.grid_offset();
            if r is Ok {
                assert forall|p: (i32, i32, i32)|
                    #[trigger] enters3(size, src, position, p) && start@.contains_key(prior3(size, src, position, p)) implies exists|c: &mut T, res: Result<(), E>|
                    *c == start@[prior3(size, src, position, p)] && *final(c) == self@[p]
                        && call_ensures(reload, (prior3(size, src, position, p), p, c), res) && res is Ok by {
                    let k = choose|k: int| 0 <= k < plan@.len() && (#[trigger] plan@[k]).1 == p;
                    assert(mid.in_bounds(p));
                    assert(mid@.contains_key(p));
                    assert(mid@[p] == start@[prior3(size, src, position, p)]);
                    assert(plan@[k].0 == prior3(size, src, position, p));
                }
            } else {
                let j = choose|j: int|
                    #![trigger plan@[j]]
                    0 <= j < plan@.len() && mid@.contains_key(plan@[j].1) && {
                        &&& exists|c: &mut T, res: Result<(), E>|
                            *c == mid@[plan@[j].1] && *final(c) == self@[plan@[j].1] && #[trigger] call_ensures(reload, (plan@[j].0, plan@[j].1, c), res) && res is Err && res->Err_0 == r->Err_0
                        &&& forall|k: int|
                            #![trigger plan@[k]]
                            0 <= k < j && mid@.contains_key(plan@[k].1) ==> exists|c: &mut T, res: Result<(), E>|
                                *c == mid@[plan@[k].1] && *final(c) == self@[plan@[k].1] && #[trigger] call_ensures(reload, (plan@[k].0, plan@[k].1, c), res) && res is Ok
                        &&& forall|k: int|
                            #![trigger plan@[k]]
                            j < k < plan@.len() && mid@.contains_key(plan@[k].1) ==> self@[plan@[k].1] == mid@[plan@[k].1]
                    };
                let f = plan@[j].1;
                assert(mid.in_bounds(f));
                assert(mid@[f] == start@[prior3(size, src, position, f)]);
                assert(enters3(size, src, position, f));
                assert forall|p: (i32, i32, i32)|
                    #[trigger] enters3(size, src, position, p) && start@.contains_key(prior3(size, src, position, p)) && reloads_before3(size, src, position, p, f) implies exists|c: &mut T, res: Result<(), E>|
                    *c == start@[prior3(size, src, position, p)] && *final(c) == self@[p]
                        && call_ensures(reload, (prior3(size, src, position, p), p, c), res) && res is Ok by {
                    let k = choose|k: int| 0 <= k < plan@.len() && (#[trigger] plan@[k]).1 == p;
                    assert(mid.in_bounds(p));
                    assert(mid@.contains_key(p));
                    assert(mid@[p] == start@[prior3(size, src, position, p)]);
                    assert(plan@[k].0 == prior3(size, src, position, p));
                    if k >= j {
                        if k > j {
                            assert(reloads_before3(size, src, position, plan@[j].1, plan@[k].1));
                        }
                        assert(false);
                    }
                }
                assert forall|p: (i32, i32, i32)|
                    #[trigger] enters3(size, src, position, p) && start@.contains_key(prior3(size, src, position, p)) && p != f && !reloads_before3(size, src, position, p, f) implies self@[p] == start@[prior3(size, src, position, p)] by {
                    let k = choose|k: int| 0 <= k < plan@.len() && (#[trigger] plan@[k]).1 == p;
                    assert(mid.in_bounds(p));
                    assert(mid@.contains_key(p));
                    assert(mid@[p] == start@[prior3(size, src, position, p)]);
                    if k <= j {
                        if k < j {
                            assert(reloads_before3(size, src, position, plan@[k].1, plan@[j].1));
                        }
                        assert(false);
                    }
                }
            }
        }
        r
    }

    /// Calls the fallible `reload` on the cell of each planned new position, stopping at
    /// the first error.
    #[verifier::loop_isolation(false)]
    fn try_reload_planned<E, F: FnMut((i32, i32, i32), (i32, i32, i32), &mut T) -> Result<(), E>>(&mut self, plan: &Vec<((i32, i32, i32), (i32, i32, i32))>, src_bounds: Ghost<Bounds3D>, reload: F) -> (r: Result<(), E>)
        requires
            old(self).wf(),
            forall|a: (i32, i32, i32), b: (i32, i32, i32), c: &mut T| call_requires(reload, (a, b, c)),
            forall|k: int| 0 <= k < plan@.len() ==> {
                &&& old(self).in_bounds((#[trigger] plan@[k]).1)
                &&& !src_bounds@.contains_spec(plan@[k].1)
            },
            forall|i: int, j: int| 0 <= i < j < plan@.len() ==> (#[trigger] plan@[i]).1 != (#[trigger] plan@[j]).1,
        ensures
            final(self).wf(),
            final(self).grid_size() == old(self).grid_size(),
            final(self).grid_offset() == old(self).grid_offset(),
            forall|p: (i32, i32, i32)| #[trigger] old(self).in_bounds(p) ==> (final(self)@.contains_key(p) <==> old(self)@.contains_key(p)),
            forall|p: (i32, i32, i32)| old(self).in_bounds(p) && src_bounds@.contains_spec(p) && old(self)@.contains_key(p) ==> #[trigger] final(self)@[p] == old(self)@[p],
            plan@.len() == 0 ==> r is Ok,
            r is Ok ==> forall|k: int|
                #![trigger plan@[k]]
                0 <= k < plan@.len() && old(self)@.contains_key(plan@[k].1) ==> exists|c: &mut T, res: Result<(), E>|
                    *c == old(self)@[plan@[k].1] && *final(c) == final(self)@[plan@[k].1] && #[trigger] call_ensures(reload, (plan@[k].0, plan@[k].1, c), res) && res is Ok,
            r is Err ==> exists|j: int|
                #![trigger plan@[j]]
                0 <= j < plan@.len() && old(self)@.contains_key(plan@[j].1) && {
                    &&& exists|c: &mut T, res: Result<(), E>|
                        *c == old(self)@[plan@[j].1] && *final(c) == final(self)@[plan@[j].1] && #[trigger] call_ensures(reload, (plan@[j].0, plan@[j].1, c), res) && res is Err && res->Err_0 == r->Err_0
                    &&& forall|k: int|
                        #![trigger plan@[k]]
                        0 <= k < j && old(self)@.contains_key(plan@[k].1) ==> exists|c: &mut T, res: Result<(), E>|
                            *c == old(self)@[plan@[k].1] && *final(c) == final(self)@[plan@[k].1] && #[trigger] call_ensures(reload, (plan@[k].0, plan@[k].1, c), res) && res is Ok
                    &&& forall|k: int|
                        #![trigger plan@[k]]
                        j < k < plan@.len() && old(self)@.contains_key(plan@[k].1) ==> final(self)@[plan@[k].1] == old(self)@[plan@[k].1]
                },
    {
        let ghost reload0 = reload;
        let mut reload = reload;
        let mut i: usize = 0;
        while i < plan.len()
            invariant
                self.wf(),
                self.grid_size() == old(self).grid_size(),
                self.grid_offset() == old(self).grid_offset(),
                reload == reload0,
                forall|a: (i32, i32, i32), b: (i32, i32, i32), c: &mut T| call_requires(reload0, (a, b, c)),
                forall|k: int| 0 <= k < plan@.len() ==> {
                    &&& old(self).in_bounds((#[trigger] plan@[k]).1)
                    &&& !src_bounds@.contains_spec(plan@[k].1)
                },
                forall|p: (i32, i32, i32)| #[trigger] old(self).in_bounds(p) ==> (self@.contains_key(p) <==> old(self)@.contains_key(p)),
                forall|p: (i32, i32, i32)| old(self).in_bounds(p) && src_bounds@.contains_spec(p) && old(self)@.contains_key(p) ==> #[trigger] self@[p] == old(self)@[p],
                forall|i: int, j: int| 0 <= i < j < plan@.len() ==> (#[trigger] plan@[i]).1 != (#[trigger] plan@[j]).1,
                0 <= i <= plan@.len(),
                forall|k: int| 0 <= k < plan@.len() && !(k < i) && old(self)@.contains_key(plan@[k].1) ==> #[trigger] self@[plan@[k].1] == old(self)@[plan@[k].1],
                forall|k: int|
                    #![trigger plan@[k]]
                    0 <= k < i && old(self)@.contains_key(plan@[k].1) ==> exists|c: &mut T, res: Result<(), E>|
                        *c == old(self)@[plan@[k].1] && *final(c) == self@[plan@[k].1] && #[trigger] call_ensures(reload0, (plan@[k].0, plan@[k].1, c), res) && res is Ok,
            decreases plan@.len() - i,
        {
            let (prior, p) = plan[i];
            let index = self.offset_index(p).unwrap();
            let ghost before = *self;
            proof {
                assert forall|q: (i32, i32, i32)| #[trigger] old(self).in_bounds(q) && q != p implies slot3(self.size, self.wrap_offset, self.grid_offset, q) != index
                    && 0 <= slot3(self.size, self.wrap_offset, self.grid_offset, q) < self.cells@.len() by {
                    self.lemma_slot(q, p);
                }
            }
            let res = match &mut self.cells[index] {
                Some(cell) => reload(prior, p, cell),
                None => Ok(()),
            };
            proof {
                assert forall|q: (i32, i32, i32)| #[trigger] old(self).in_bounds(q) implies (self@.contains_key(q) <==> before@.contains_key(q)) by {
                    if q != p {
                        assert(self.cells@[self.slot(q)] == before.cells@[before.slot(q)]);
                    }
                }
                assert forall|q: (i32, i32, i32)| old(self).in_bounds(q) && src_bounds@.contains_spec(q) && old(self)@.contains_key(q) implies #[trigger] self@[q] == old(self)@[q] by {
                    assert(q != p);
                    assert(self.cells@[self.slot(q)] == before.cells@[before.slot(q)]);
                    assert(before@[q] == old(self)@[q]);
                }
                assert forall|k: int| 0 <= k < plan@.len() && k != i && before@.contains_key(plan@[k].1) implies self@.contains_key(plan@[k].1) && #[trigger] self@[plan@[k].1] == before@[plan@[k].1] by {
                    let q = plan@[k].1;
                    if k < i {
                        assert(plan@[k].1 != plan@[i as int].1);
                    } else {
                        assert(plan@[i as int].1 != plan@[k].1);
                    }
                    assert(self.cells@[self.slot(q)] == before.cells@[before.slot(q)]);
                }
                assert(before@.contains_key(p) ==> exists|c: &mut T| *c == before@[p] && *final(c) == self@[p] && #[trigger] call_ensures(reload0, (prior, p, c), res));
            }
            let ghost res0 = res;
            match res {
                Ok(()) => {
                    proof {
                        assert(res is Ok);
                    }
                },
                Err(e) => {
                    proof {
                        assert(before@.contains_key(p));
                        assert(before@[p] == old(self)@[p]);
                        let c = choose|c: &mut T| *c == before@[p] && *final(c) == self@[p] && #[trigger] call_ensures(reload0, (prior, p, c), res0);
                        assert(plan@[i as int] == (prior, p));
                        assert(call_ensures(reload0, (plan@[i as int].0, plan@[i as int].1, c), res0) && res0 is Err);
                        assert forall|k: int| 0 <= k < i && old(self)@.contains_key(plan@[k].1) implies exists|c: &mut T, res: Result<(), E>|
                            *c == old(self)@[plan@[k].1] && *final(c) == self@[plan@[k].1] && #[trigger] call_ensures(reload0, (plan@[k].0, plan@[k].1, c), res) && res is Ok by {
                            assert(plan@[k].1 != plan@[i as int].1);
                            assert(self@[plan@[k].1] == before@[plan@[k].1]);
                        }
                        assert forall|k: int| i < k < plan@.len() && old(self)@.contains_key(plan@[k].1) implies #[trigger] self@[plan@[k].1] == old(self)@[plan@[k].1] by {
                            assert(plan@[i as int].1 != plan@[k].1);
                            assert(self@[plan@[k].1] == before@[plan@[k].1]);
                        }
                        assert(res0->Err_0 == e);
                    }
                    let r: Result<(), E> = Err(e);
                    proof {
                        assert(res0->Err_0 == r->Err_0);
                    }
                    return r;
                },
            }
            i = i + 1;
        }
        Ok(())
    }

    /// Translate the grid by offset amount using a reload function.
    ///
    /// The reload function takes the old position, the new position, and
    /// a mutable reference to the cell where the initial value of the cell
    /// when called is the value at `old_position`. You want to change the
    /// cell to the correct value for a cell at `new_position`.
    pub fn translate<F: FnMut((i32, i32, i32), (i32, i32, i32), &mut T)>(&mut self, offset: (i32, i32, i32), reload: F)
        requires
            old(self).wf(),
            i32::MIN <= old(self).grid_offset().0 + offset.0,
            i32::MIN <= old(self).grid_offset().1 + offset.1,
            i32::MIN <= old(self).grid_offset().2 + offset.2,
            old(self).grid_offset().0 + offset.0 + old(self).grid_size().0 <= i32::MAX,
            old(self).grid_offset().1 + offset.1 + old(self).grid_size().1 <= i32::MAX,
            old(self).grid_offset().2 + offset.2 + old(self).grid_size().2 <= i32::MAX,
            forall|a: (i32, i32, i32), b: (i32, i32, i32), c: &mut T| call_requires(reload, (a, b, c)),
        ensures
            final(self).wf(),
            final(self).grid_size() == old(self).grid_size(),
            final(self).grid_offset() == ((old(self).grid_offset().0 + offset.0) as i32, (old(self).grid_offset().1 + offset.1) as i32, (old(self).grid_offset().2 + offset.2) as i32),
            forall|p: (i32, i32, i32)| old(self).in_bounds(p) && final(self).in_bounds(p) ==> (#[trigger] final(self)@.contains_key(p) <==> old(self)@.contains_key(p)),
            forall|p: (i32, i32, i32)| old(self).in_bounds(p) && final(self).in_bounds(p) && old(self)@.contains_key(p) ==> #[trigger] final(self)@[p] == old(self)@[p],
            old(self).full() ==> final(self).full(),
            forall|p: (i32, i32, i32)|
                #![trigger enters3(old(self).grid_size(), old(self).grid_offset(), final(self).grid_offset(), p)]
                enters3(old(self).grid_size(), old(self).grid_offset(), final(self).grid_offset(), p) && old(self)@.contains_key(prior3(old(self).grid_size(), old(self).grid_offset(), final(self).grid_offset(), p))
                    ==> exists|c: &mut T|
                    *c == old(self)@[prior3(old(self).grid_size(), old(self).grid_offset(), final(self).grid_offset(), p)] && *final(c) == final(self)@[p]
                        && #[trigger] call_ensures(reload, (prior3(old(self).grid_size(), old(self).grid_offset(), final(self).grid_offset(), p), p, c), ()),
    {
        let (curx, cury, curz) = self.grid_offset;
        let (ox, oy, oz) = offset;
        let position = (curx + ox, cury + oy, curz + oz);
        self.reposition(position, reload);
        assert(self.grid_offset() == position);
    }

    /// Try to translate the grid by offset amount using a fallible reload function,
    /// stopping at the first error and returning it.
    pub fn try_translate<E, F: FnMut((i32, i32, i32), (i32, i32, i32), &mut T) -> Result<(), E>>(&mut self, offset: (i32, i32, i32), reload: F) -> (r: Result<(), E>)
        requires
            old(self).wf(),
            i32::MIN <= old(self).grid_offset().0 + offset.0,
            i32::MIN <= old(self).grid_offset().1 + offset.1,
            i32::MIN <= old(self).grid_offset().2 + offset.2,
            old(self).grid_offset().0 + offset.0 + old(self).grid_size().0 <= i32::MAX,
            old(self).grid_offset().1 + offset.1 + old(self).grid_size().1 <= i32::MAX,
            old(self).grid_offset().2 + offset.2 + old(self).grid_size().2 <= i32::MAX,
            forall|a: (i32, i32, i32), b: (i32, i32, i32), c: &mut T| call_requires(reload, (a, b, c)),
        ensures
            final(self).wf(),
            final(self).grid_size() == old(self).grid_size(),
            final(self).grid_offset() == ((old(self).grid_offset().0 + offset.0) as i32, (old(self).grid_offset().1 + offset.1) as i32, (old(self).grid_offset().2 + offset.2) as i32),
            forall|p: (i32, i32, i32)| old(self).in_bounds(p) && final(self).in_bounds(p) ==> (#[trigger] final(self)@.contains_key(p) <==> old(self)@.contains_key(p)),
            forall|p: (i32, i32, i32)| old(self).in_bounds(p) && final(self).in_bounds(p) && old(self)@.contains_key(p) ==> #[trigger] final(self)@[p] == old(self)@[p],
            old(self).full() ==> final(self).full(),
            offset == (0i32, 0i32, 0i32) ==> r is Ok,
            r is Ok ==> forall|p: (i32, i32, i32)|
                #![trigger enters3(old(self).grid_size(), old(self).grid_offset(), final(self).grid_offset(), p)]
                enters3(old(self).grid_size(), old(self).grid_offset(), final(self).grid_offset(), p) && old(self)@.contains_key(prior3(old(self).grid_size(), old(self).grid_offset(), final(self).grid_offset(), p))
                    ==> exists|c: &mut T, res: Result<(), E>|
                    *c == old(self)@[prior3(old(self).grid_size(), old(self).grid_offset(), final(self).grid_offset(), p)] && *final(c) == final(self)@[p]
                        && #[trigger] call_ensures(reload, (prior3(old(self).grid_size(), old(self).grid_offset(), final(self).grid_offset(), p), p, c), res) && res is Ok,
            r is Err ==> exists|f: (i32, i32, i32)|
                #![trigger enters3(old(self).grid_size(), old(self).grid_offset(), final(self).grid_offset(), f)]
                enters3(old(self).grid_size(), old(self).grid_offset(), final(self).grid_offset(), f) && old(self)@.contains_key(prior3(old(self).grid_size(), old(self).grid_offset(), final(self).grid_offset(), f)) && {
                    &&& exists|c: &mut T, res: Result<(), E>|
                        *c == old(self)@[prior3(old(self).grid_size(), old(self).grid_offset(), final(self).grid_offset(), f)] && *final(c) == final(self)@[f] && #[trigger] call_ensures(reload, (prior3(old(self).grid_size(), old(self).grid_offset(), final(self).grid_offset(), f), f, c), res) && res is Err && res->Err_0 == r->Err_0
                    &&& forall|p: (i32, i32, i32)|
                        #![trigger enters3(old(self).grid_size(), old(self).grid_offset(), final(self).grid_offset(), p)]
                        enters3(old(self).grid_size(), old(self).grid_offset(), final(self).grid_offset(), p) && old(self)@.contains_key(prior3(old(self).grid_size(), old(self).grid_offset(), final(self).grid_offset(), p)) && reloads_before3(old(self).grid_size(), old(self).grid_offset(), final(self).grid_offset(), p, f) ==> exists|c: &mut T, res: Result<(), E>|
                            *c == old(self)@[prior3(old(self).grid_size(), old(self).grid_offset(), final(self).grid_offset(), p)] && *final(c) == final(self)@[p] && #[trigger] call_ensures(reload, (prior3(old(self).grid_size(), old(self).grid_offset(), final(self).grid_offset(), p), p, c), res) && res is Ok
                    &&& forall|p: (i32, i32, i32)|
                        #![trigger enters3(old(self).grid_size(), old(self).grid_offset(), final(self).grid_offset(), p)]
                        enters3(old(self).grid_size(), old(self).grid_offset(), final(self).grid_offset(), p) && old(self)@.contains_key(prior3(old(self).grid_size(), old(self).grid_offset(), final(self).grid_offset(), p)) && p != f && !reloads_before3(old(self).grid_size(), old(self).grid_offset(), final(self).grid_offset(), p, f) ==> final(self)@[p] == old(self)@[prior3(old(self).grid_size(), old(self).grid_offset(), final(self).grid_offset(), p)]
                },
    {
        let (curx, cury, curz) = self.grid_offset;
        let (ox, oy, oz) = offset;
        let position = (curx + ox, cury + oy, curz + oz);
        let r = self.try_reposition(position, reload);
        assert(self.grid_offset() == position);
        r
    }

    /// Calls `f` with every position of the grid and a mutable reference to its value,
    /// in iteration order (`x` fastest, then `z`, then `y`).
    pub fn iter_mut<F: FnMut((i32, i32, i32), &mut T)>(&mut self, f: F)
        requires
            old(self).wf(),
            forall|a: (i32, i32, i32), c: &mut T| call_requires(f, (a, c)),
        ensures
            final(self).wf(),
            final(self).grid_size() == old(self).grid_size(),
            final(self).grid_offset() == old(self).grid_offset(),
            forall|p: (i32, i32, i32)| #[trigger] final(self)@.contains_key(p) <==> old(self)@.contains_key(p),
            forall|p: (i32, i32, i32)|
                #![trigger old(self)@[p]]
                old(self)@.contains_key(p) ==> exists|c: &mut T| *c == old(self)@[p] && *final(c) == final(self)@[p] && #[trigger] call_ensures(f, (p, c), ()),
    {
        let ghost f0 = f;
        let ghost start = *self;
        let mut f = f;
        let b = self.bounds();
        let mut it = b.iter();
        let ghost pts = it.remaining();
        let mut i: usize = 0;
        proof {
            lemma_box3(b.min.0 as int, b.max.0 as int, b.min.1 as int, b.max.1 as int, b.min.2 as int, b.max.2 as int);
            lemma_box3_len(b.min.0 as int, b.max.0 as int, b.min.1 as int, b.max.1 as int, b.min.2 as int, b.max.2 as int);
            assert(pts.len() == self.grid_size().0 * self.grid_size().1 * self.grid_size().2) by (nonlinear_arith)
                requires
                    pts.len() == (b.max.1 - b.min.1) * ((b.max.2 - b.min.2) * (b.max.0 - b.min.0)),
                    b.max.1 - b.min.1 == self.grid_size().1,
                    b.max.2 - b.min.2 == self.grid_size().2,
                    b.max.0 - b.min.0 == self.grid_size().0,
            ;
            assert(it.remaining() == pts.subrange(0, pts.len() as int));
        }
        loop
            invariant
                self.wf(),
                self.grid_size() == start.grid_size(),
                self.grid_offset() == start.grid_offset(),
                *old(self) == start,
                start.wf(),
                it.wf(),
                it.bounds() == b,
                pts == b.points(),
                forall|p: (i32, i32, i32)| #[trigger] pts.contains(p) <==> start.in_bounds(p),
                sorted3(pts),
                pts.len() <= usize::MAX,
                0 <= i <= pts.len(),
                it.remaining() == pts.subrange(i as int, pts.len() as int),
                forall|p: (i32, i32, i32)| #[trigger] self@.contains_key(p) <==> start@.contains_key(p),
                f == f0,
                forall|a: (i32, i32, i32), c: &mut T| call_requires(f0, (a, c)),
                forall|k: int| i <= k < pts.len() && start@.contains_key(pts[k]) ==> #[trigger] self@[pts[k]] == start@[pts[k]],
                forall|k: int|
                    #![trigger pts[k]]
                    0 <= k < i && start@.contains_key(pts[k]) ==> exists|c: &mut T|
                        *c == start@[pts[k]] && *final(c) == self@[pts[k]] && #[trigger] call_ensures(f0, (pts[k], c), ()),
            ensures
                i == pts.len(),
            decreases pts.len() - i,
        {
            match it.next() {
                Some(p) => {
                    proof {
                        assert(pts[i as int] == p);
                        assert(pts.contains(p));
                        assert(self.in_bounds(p));
                    }
                    let index = self.offset_index(p).unwrap();
                    let ghost before = *self;
                    proof {
                        assert forall|q: (i32, i32, i32)| #[trigger] self.in_bounds(q) && q != p implies slot3(self.size, self.wrap_offset, self.grid_offset, q) != index
                            && 0 <= slot3(self.size, self.wrap_offset, self.grid_offset, q) < self.cells@.len() by {
                            self.lemma_slot(q, p);
                        }
                    }
                    match &mut self.cells[index] {
                        Some(cell) => f(p, cell),
                        None => {},
                    }
                    proof {
                        assert forall|q: (i32, i32, i32)| #[trigger] self@.contains_key(q) <==> before@.contains_key(q) by {
                            if self.in_bounds(q) && q != p {
                                assert(self.cells@[self.slot(q)] == before.cells@[before.slot(q)]);
                            }
                        }
                        assert forall|k: int| 0 <= k < pts.len() && k != i && before@.contains_key(pts[k]) implies #[trigger] self@[pts[k]] == before@[pts[k]] by {
                            let q = pts[k];
                            if k < i {
                                assert(before3(pts[k], pts[i as int]));
                            } else {
                                assert(before3(pts[i as int], pts[k]));
                            }
                            assert(q != p);
                            assert(pts.contains(q));
                            assert(self.in_bounds(q));
                            assert(self.cells@[self.slot(q)] == before.cells@[before.slot(q)]);
                        }
                        assert(before@.contains_key(p) ==> exists|c: &mut T| *c == before@[p] && *final(c) == self@[p] && #[trigger] call_ensures(f0, (p, c), ()));
                        assert(it.remaining() =~= pts.subrange(i + 1, pts.len() as int));
                    }
                    i = i + 1;
                },
                None => {
                    proof {
                        assert(pts.subrange(i as int, pts.len() as int).len() == 0);
                    }
                    break;
                },
            }
        }
        proof {
            assert forall|p: (i32, i32, i32)| start@.contains_key(p) implies exists|c: &mut T|
                *c == start@[p] && *final(c) == self@[p] && #[trigger] call_ensures(f0, (p, c), ()) by {
                assert(start.in_bounds(p));
                assert(pts.contains(p));
                let k = choose|k: int| 0 <= k < pts.len() && pts[k] == p;
                assert(pts[k] == p);
            }
        }
    }

    /// Replace item at `coord` using `replace` function that takes as
    /// input the old value and returns the new value. This will swap the
    /// value in-place.
    pub fn replace_with<F: FnOnce(T) -> T>(&mut self, coord: (i32, i32, i32), replace: F)
        requires
            old(self).wf(),
            old(self)@.contains_key(coord),
            call_requires(replace, (old(self)@[coord],)),
        ensures
            final(self).wf(),
            final(self).grid_size() == old(self).grid_size(),
            final(self).grid_offset() == old(self).grid_offset(),
            final(self)@.dom() == old(self)@.dom(),
            call_ensures(replace, (old(self)@[coord],), final(self)@[coord]),
            forall|p: (i32, i32, i32)| old(self)@.contains_key(p) && p != coord ==> #[trigger] final(self)@[p] == old(self)@[p],
    {
        let index = self.offset_index(coord).unwrap();
        let old_value = self.cells[index].take();
        let v = match old_value {
            Some(v) => v,
            None => vstd::pervasive::unreached(),
        };
        let new_value = replace(v);
        self.cells.set(index, Some(new_value));
        proof {
            assert forall|p: (i32, i32, i32)| self.in_bounds(p) && p != coord implies self.cells@[self.slot(p)] == old(self).cells@[old(self).slot(p)] by {
                self.lemma_slot(p, coord);
            }
            assert(self@.dom() =~= old(self)@.dom());
        }
    }

    /// Replace item at `coord` using [std::mem::replace] and then returns
    /// the old value.
    pub fn replace(&mut self, coord: (i32, i32, i32), value: T) -> (r: T)
        requires
            old(self).wf(),
            old(self)@.contains_key(coord),
        ensures
            r == old(self)@[coord],
            final(self).wf(),
            final(self).grid_size() == old(self).grid_size(),
            final(self).grid_offset() == old(self).grid_offset(),
            final(self)@ == old(self)@.insert(coord, value),
    {
        let index = self.offset_index(coord).unwrap();
        let old_value = self.cells[index].take();
        self.cells.set(index, Some(value));
        proof {
            assert forall|p: (i32, i32, i32)| self.in_bounds(p) && p != coord implies self.cells@[self.slot(p)] == old(self).cells@[old(self).slot(p)] by {
                self.lemma_slot(p, coord);
            }
            assert(self@ =~= old(self)@.insert(coord, value));
        }
        match old_value {
            Some(v) => v,
            None => vstd::pervasive::unreached(),
        }
    }

    /// Get a reference to the cell's value if it exists and the coord is in bounds, otherwise return `None`.
    pub fn get(&self, coord: (i32, i32, i32)) -> (r: Option<&T>)
        requires
            self.wf(),
        ensures
            r is Some <==> self@.contains_key(coord),
            r matches Some(v) ==> *v == self@[coord],
    {
        match self.offset_index(coord) {
            Some(index) => match &self.cells[index] {
                Some(v) => Some(v),
                None => None,
            },
            None => None,
        }
    }

    /// Get a mutable reference to the cell's value if it exists and the coord is in bounds, otherwise return `None`.
    pub fn get_mut(&mut self, coord: (i32, i32, i32)) -> (r: Option<&mut T>)
        requires
            old(self).wf(),
        ensures
            r is Some <==> old(self)@.contains_key(coord),
            final(self).wf(),
            final(self).grid_size() == old(self).grid_size(),
            final(self).grid_offset() == old(self).grid_offset(),
            final(self)@.dom() == old(self)@.dom(),
            r matches Some(v) ==> *v == old(self)@[coord] && final(self)@[coord] == *final(v),
            forall|p: (i32, i32, i32)| old(self)@.contains_key(p) && p != coord ==> #[trigger] final(self)@[p] == old(self)@[p],
    {
        match self.offset_index(coord) {
            Some(index) => {
                proof {
                    assert forall|p: (i32, i32, i32)| self.in_bounds(p) && p != coord implies #[trigger] slot3(self.size, self.wrap_offset, self.grid_offset, p) != index
                        && 0 <= slot3(self.size, self.wrap_offset, self.grid_offset, p) < self.cells@.len() by {
                        self.lemma_slot(p, coord);
                    }
                }
                match &mut self.cells[index] {
                    Some(v) => Some(v),
                    None => None,
                }
            },
            None => None,
        }
    }

    /// Set the cell's value, returning the old value in the process.
    /// Returns `None` and leaves the grid unchanged when `coord` is out of bounds.
    pub fn set(&mut self, coord: (i32, i32, i32), value: T) -> (r: Option<T>)
        requires
            old(self).wf(),
        ensures
            final(self).wf(),
            final(self).grid_size() == old(self).grid_size(),
            final(self).grid_offset() == old(self).grid_offset(),
            old(self).in_bounds(coord) ==> final(self)@ == old(self)@.insert(coord, value),
            old(self)@.contains_key(coord) ==> r == Some(old(self)@[coord]),
            !old(self)@.contains_key(coord) ==> r is None,
            !old(self).in_bounds(coord) ==> final(self)@ == old(self)@,
            old(self).full() ==> final(self).full(),
    {
        match self.offset_index(coord) {
            Some(index) => {
                let r = self.cells[index].take();
                self.cells.set(index, Some(value));
                proof {
                    assert forall|p: (i32, i32, i32)| self.in_bounds(p) && p != coord implies self.cells@[self.slot(p)] == old(self).cells@[old(self).slot(p)] by {
                        self.lemma_slot(p, coord);
                    }
                    assert(self@ =~= old(self)@.insert(coord, value));
                }
                r
            },
            None => None,
        }
    }


    /// Get the dimensions of the grid.
    pub fn size(&self) -> (r: (u32, u32, u32))
        ensures
            r == self.grid_size(),
    {
        self.size
    }

    /// The size along the X axis.
    pub fn width(&self) -> (r: u32)
        ensures
            r == self.grid_size().0,
    {
        self.size.0
    }

    /// The size along the Y axis.
    pub fn height(&self) -> (r: u32)
        ensures
            r == self.grid_size().1,
    {
        self.size.1
    }

    /// The size along the Z axis.
    pub fn depth(&self) -> (r: u32)
        ensures
            r == self.grid_size().2,
    {
        self.size.2
    }

    /// Get the offset of the grid.
    pub fn offset(&self) -> (r: (i32, i32, i32))
        ensures
            r == self.grid_offset(),
    {
        self.grid_offset
    }

    /// Get the minimum bound on the `X` axis.
    pub fn x_min(&self) -> (r: i32)
        ensures
            r == self.grid_offset().0,
    {
        self.grid_offset.0
    }

    /// Get the maximum bound on the `X` axis.
    pub fn x_max(&self) -> (r: i32)
        requires
            self.wf(),
        ensures
            r == self.grid_offset().0 + self.grid_size().0,
    {
        (self.grid_offset.0 as i64 + self.size.0 as i64) as i32
    }

    /// Get the minimum bound on the `Y` axis.
    pub fn y_min(&self) -> (r: i32)
        ensures
            r == self.grid_offset().1,
    {
        self.grid_offset.1
    }

    /// Get the maximum bound on the `Y` axis.
    pub fn y_max(&self) -> (r: i32)
        requires
            self.wf(),
        ensures
            r == self.grid_offset().1 + self.grid_size().1,
    {
        (self.grid_offset.1 as i64 + self.size.1 as i64) as i32
    }

    /// Get the minimum bound on the `Z` axis.
    pub fn z_min(&self) -> (r: i32)
        ensures
            r == self.grid_offset().2,
    {
        self.grid_offset.2
    }

    /// Get the maximum bound on the `Z` axis.
    pub fn z_max(&self) -> (r: i32)
        requires
            self.wf(),
        ensures
            r == self.grid_offset().2 + self.grid_size().2,
    {
        (self.grid_offset.2 as i64 + self.size.2 as i64) as i32
    }

    /// Get the bounds of the grid.
    pub fn bounds(&self) -> (r: Bounds3D)
        requires
            self.wf(),
        ensures
            r.min == self.grid_offset(),
            r.max == (
                (self.grid_offset().0 + self.grid_size().0) as i32,
                (self.grid_offset().1 + self.grid_size().1) as i32,
                (self.grid_offset().2 + self.grid_size().2) as i32,
            ),
            forall|p: (i32, i32, i32)| r.contains_spec(p) <==> self.in_bounds(p),
    {
        Bounds3D { min: (self.x_min(), self.y_min(), self.z_min()), max: (self.x_max(), self.y_max(), self.z_max()) }
    }

    /// This is equivalent to the volume (width * height * depth).
    pub fn len(&self) -> (r: usize)
        requires
            self.wf(),
        ensures
            r == self.grid_size().0 * self.grid_size().1 * self.grid_size().2,
    {
        proof {
            lemma_cell_index3(self.size.0 as int, self.size.1 as int, self.size.2 as int, 0, 0, 0);
        }
        self.size.0 as usize * self.size.1 as usize * self.size.2 as usize
    }

    /// The positions of the grid in iteration order: `x` fastest, then `z`, then `y`.
    pub open spec fn bounds_points(&self) -> Seq<(i32, i32, i32)> {
        box3(
            self.grid_offset().0 as int,
            self.grid_offset().0 + self.grid_size().0,
            self.grid_offset().1 as int,
            self.grid_offset().1 + self.grid_size().1,
            self.grid_offset().2 as int,
            self.grid_offset().2 + self.grid_size().2,
        )
    }

    /// Get an iterator over the cells in the grid, in iteration order.
    pub fn iter<'a>(&'a self) -> (r: RollGrid3DIterator<'a, T>)
        requires
            self.wf(),
            self.full(),
        ensures
            r.grid() == self,
            r.wf(),
            r.remaining() == self.bounds_points(),
    {
        let b = self.bounds();
        proof {
            lemma_box3(b.min.0 as int, b.max.0 as int, b.min.1 as int, b.max.1 as int, b.min.2 as int, b.max.2 as int);
        }
        RollGrid3DIterator { grid: self, bounds_iter: b.iter() }
    }
}

impl<T: Copy> RollGrid3D<T> {
    /// Get a copy of the grid value.
    pub fn get_copy(&self, coord: (i32, i32, i32)) -> (r: Option<T>)
        requires
            self.wf(),
        ensures
            r == (if self@.contains_key(coord) { Some(self@[coord]) } else { None::<T> }),
    {
        match self.get(coord) {
            Some(v) => Some(*v),
            None => None,
        }
    }
}

impl<T: Clone> RollGrid3D<T> {
    /// Get a clone of the grid value.
    pub fn get_clone(&self, coord: (i32, i32, i32)) -> (r: Option<T>)
        requires
            self.wf(),
        ensures
            r is Some <==> self@.contains_key(coord),
            r matches Some(v) ==> cloned::<T>(self@[coord], v),
    {
        match self.get(coord) {
            Some(v) => Some(v.clone()),
            None => None,
        }
    }
}

impl<T: Default> RollGrid3D<T> {
    /// Create a new [RollGrid3D] with all the cells set to the default for `T`.
    ///
    /// `T::default` is called once for every position, also when `T` is zero-sized.
    pub fn new_default(width: u32, height: u32, depth: u32, grid_offset: (i32, i32, i32)) -> (r: Self)
        requires
            width * height * depth > 0,
            width * height * depth <= usize::MAX,
            grid_offset.0 + width <= i32::MAX,
            grid_offset.1 + height <= i32::MAX,
            grid_offset.2 + depth <= i32::MAX,
        ensures
            r.wf(),
            r.full(),
            r.grid_size() == (width, height, depth),
            r.grid_offset() == grid_offset,
            forall|p: (i32, i32, i32)| r.in_bounds(p) ==> call_ensures(T::default, (), #[trigger] r@[p]),
    {
        Self::new(width, height, depth, grid_offset, |p: (i32, i32, i32)| -> (d: T) ensures call_ensures(T::default, (), d) { T::default() })
    }
}

impl<T: Clone> Clone for RollGrid3D<T> {
    /// Clones every cell of the grid.
    fn clone(&self) -> (r: Self)
        ensures
            self.wf() ==> r.wf(),
            r.grid_size() == self.grid_size(),
            r.grid_offset() == self.grid_offset(),
            self.wf() ==> forall|p: (i32, i32, i32)| #[trigger] r@.contains_key(p) <==> self@.contains_key(p),
            self.wf() ==> forall|p: (i32, i32, i32)| self@.contains_key(p) ==> cloned::<T>(self@[p], #[trigger] r@[p]),
    {
        let r = RollGrid3D {
            cells: clone_slots(&self.cells),
            size: self.size,
            wrap_offset: self.wrap_offset,
            grid_offset: self.grid_offset,
        };
        proof {
            if self.wf() {
                assert forall|p: (i32, i32, i32)| #[trigger] self.in_bounds(p) implies 0 <= self.slot(p) < self.cells@.len() by {
                    self.lemma_slot(p, p);
                }
                assert forall|p: (i32, i32, i32)| #[trigger] r@.contains_key(p) <==> self@.contains_key(p) by {
                    if self.in_bounds(p) {
                        assert(r.slot(p) == self.slot(p));
                    }
                }
            }
        }
        r
    }
}

/// Iterator over all cells in a [RollGrid3D].
pub struct RollGrid3DIterator<'a, T> {
    grid: &'a RollGrid3D<T>,
    bounds_iter: Bounds3DIter,
}

impl<'a, T> RollGrid3DIterator<'a, T> {
    /// The grid being iterated.
    pub closed spec fn grid(self) -> &'a RollGrid3D<T> {
        self.grid
    }

    /// The iterator's internal invariant.
    pub closed spec fn wf(self) -> bool {
        &&& self.grid.wf()
        &&& self.grid.full()
        &&& self.bounds_iter.wf()
        &&& forall|i: int| 0 <= i < self.bounds_iter.remaining().len() ==> self.grid.in_bounds(#[trigger] self.bounds_iter.remaining()[i])
    }

    /// The positions still to be visited, in order.
    pub closed spec fn remaining(self) -> Seq<(i32, i32, i32)> {
        self.bounds_iter.remaining()
    }

    /// The number of cells still to be visited, as a lower and an upper bound.
    pub fn size_hint(&self) -> (r: (usize, Option<usize>))
        requires
            self.wf(),
            self.remaining().len() <= usize::MAX,
        ensures
            r == (self.remaining().len() as usize, Some(self.remaining().len() as usize)),
    {
        self.bounds_iter.size_hint()
    }

    /// Returns the next position and a reference to its value.
    pub fn next(&mut self) -> (r: Option<((i32, i32, i32), &'a T)>)
        requires
            old(self).wf(),
        ensures
            final(self).wf(),
            final(self).grid() == old(self).grid(),
            old(self).remaining().len() == 0 ==> r is None && final(self).remaining() == old(self).remaining(),
            old(self).remaining().len() > 0 ==> final(self).remaining() == old(self).remaining().drop_first(),
            old(self).remaining().len() > 0 ==> (r matches Some((p, v)) && p == old(self).remaining()[0] && *v == old(self).grid()@[p]),
    {
        let next = self.bounds_iter.next();
        match next {
            Some(p) => {
                proof {
                    assert(old(self).bounds_iter.remaining()[0] == p);
                    assert forall|i: int| 0 <= i < self.bounds_iter.remaining().len() implies self.grid.in_bounds(#[trigger] self.bounds_iter.remaining()[i]) by {
                        assert(self.bounds_iter.remaining()[i] == old(self).bounds_iter.remaining()[i + 1]);
                    }
                }
                match self.grid.get(p) {
                    Some(v) => Some((p, v)),
                    None => vstd::pervasive::unreached(),
                }
            },
            None => None,
        }
    }
}


} // verus!
