use vstd::prelude::*;

verus! {

/// A 3D bounding box.
#[derive(Debug, Default, Clone, Copy, Eq, PartialOrd, Ord, Hash)]
pub struct Bounds3D {
    /// Inclusive minimum bound.
    pub min: (i32, i32, i32),
    /// Exclusive maximum bound.
    pub max: (i32, i32, i32),
}

impl PartialEq for Bounds3D {
    fn eq(&self, other: &Self) -> (r: bool) {
        self.min.0 == other.min.0 && self.min.1 == other.min.1 && self.min.2 == other.min.2
            && self.max.0 == other.max.0 && self.max.1 == other.max.1 && self.max.2 == other.max.2
    }
}

impl vstd::std_specs::cmp::PartialEqSpecImpl for Bounds3D {
    open spec fn obeys_eq_spec() -> bool {
        true
    }

    open spec fn eq_spec(&self, other: &Self) -> bool {
        self.min == other.min && self.max == other.max
    }
}

/// The points `(x, y, z)` with `x0 <= x < x1`, in increasing `x`.
pub open spec fn row3(x0: int, x1: int, y: int, z: int) -> Seq<(i32, i32, i32)> {
    Seq::new(
        if x1 > x0 { (x1 - x0) as nat } else { 0 },
        |i: int| ((x0 + i) as i32, y as i32, z as i32),
    )
}

/// The points of `[x0, x1) x {y} x [z0, z_end)`, row by row (`z` outer, `x` inner).
pub open spec fn plane3(x0: int, x1: int, y: int, z0: int, z_end: int) -> Seq<(i32, i32, i32)>
    decreases z_end - z0,
{
    if z_end <= z0 {
        Seq::empty()
    } else {
        plane3(x0, x1, y, z0, z_end - 1) + row3(x0, x1, y, z_end - 1)
    }
}

/// The points of the box `[x0, x1) x [y0, y_end) x [z0, z1)`, plane by plane
/// (`y` outermost, then `z`, then `x`).
pub open spec fn box3(x0: int, x1: int, y0: int, y_end: int, z0: int, z1: int) -> Seq<(i32, i32, i32)>
    decreases y_end - y0,
{
    if y_end <= y0 {
        Seq::empty()
    } else {
        box3(x0, x1, y0, y_end - 1, z0, z1) + plane3(x0, x1, y_end - 1, z0, z1)
    }
}

/// Whether `p` lies in the box `[x0, x1) x [y0, y1) x [z0, z1)`.
pub open spec fn in_box3(x0: int, x1: int, y0: int, y1: int, z0: int, z1: int, p: (i32, i32, i32)) -> bool {
    x0 <= p.0 < x1 && y0 <= p.1 < y1 && z0 <= p.2 < z1
}

/// Iteration order on points: `y` first, then `z`, then `x`.
pub open spec fn before3(a: (i32, i32, i32), b: (i32, i32, i32)) -> bool {
    a.1 < b.1 || (a.1 == b.1 && (a.2 < b.2 || (a.2 == b.2 && a.0 < b.0)))
}

/// A sequence of points strictly increasing in iteration order.
pub open spec fn sorted3(s: Seq<(i32, i32, i32)>) -> bool {
    forall|i: int, j: int| 0 <= i < j < s.len() ==> before3(#[trigger] s[i], #[trigger] s[j])
}

/// A sorted sequence holds no point twice.
pub proof fn lemma_sorted3_distinct(s: Seq<(i32, i32, i32)>)
    requires
        sorted3(s),
    ensures
        forall|i: int, j: int| 0 <= i < s.len() && 0 <= j < s.len() && i != j ==> s[i] != s[j],
{
    assert forall|i: int, j: int| 0 <= i < s.len() && 0 <= j < s.len() && i != j implies s[i] != s[j] by {
        if i < j {
            assert(before3(s[i], s[j]));
        } else {
            assert(before3(s[j], s[i]));
        }
    }
}

/// `plane3` holds exactly the points of its slab, in strictly increasing order.
pub proof fn lemma_plane3(x0: int, x1: int, y: int, z0: int, z_end: int)
    requires
        i32::MIN <= x0,
        x1 <= i32::MAX + 1,
        i32::MIN <= y <= i32::MAX,
        i32::MIN <= z0,
        z_end <= i32::MAX + 1,
    ensures
        forall|p: (i32, i32, i32)| #[trigger] plane3(x0, x1, y, z0, z_end).contains(p)
            <==> in_box3(x0, x1, y, y + 1, z0, z_end, p),
        sorted3(plane3(x0, x1, y, z0, z_end)),
        forall|i: int| 0 <= i < plane3(x0, x1, y, z0, z_end).len() ==> in_box3(x0, x1, y, y + 1, z0, z_end, #[trigger] plane3(x0, x1, y, z0, z_end)[i]),
    decreases z_end - z0,
{
    let s = plane3(x0, x1, y, z0, z_end);
    if z_end > z0 {
        lemma_plane3(x0, x1, y, z0, z_end - 1);
        let a = plane3(x0, x1, y, z0, z_end - 1);
        let r = row3(x0, x1, y, z_end - 1);
        assert(s == a + r);
        assert forall|i: int| 0 <= i < s.len() implies in_box3(x0, x1, y, y + 1, z0, z_end, #[trigger] s[i]) by {
            if i >= a.len() {
                assert(s[i] == r[i - a.len()]);
            } else {
                assert(s[i] == a[i]);
            }
        }
        assert forall|p: (i32, i32, i32)| #[trigger] s.contains(p) <==> in_box3(x0, x1, y, y + 1, z0, z_end, p) by {
            if in_box3(x0, x1, y, y + 1, z0, z_end, p) {
                if p.2 < z_end - 1 {
                    assert(a.contains(p));
                    let k = choose|k: int| 0 <= k < a.len() && a[k] == p;
                    assert(s[k] == p);
                } else {
                    let k = p.0 - x0;
                    assert(r[k] == p);
                    assert(s[a.len() + k] == p);
                }
            }
            if s.contains(p) {
                let k = choose|k: int| 0 <= k < s.len() && s[k] == p;
                assert(in_box3(x0, x1, y, y + 1, z0, z_end, s[k]));
            }
        }
        assert forall|i: int, j: int| 0 <= i < j < s.len() implies before3(#[trigger] s[i], #[trigger] s[j]) by {
            if j < a.len() {
                assert(s[i] == a[i] && s[j] == a[j]);
            } else if i >= a.len() {
                assert(s[i] == r[i - a.len()] && s[j] == r[j - a.len()]);
            } else {
                assert(s[i] == a[i] && s[j] == r[j - a.len()]);
                assert(in_box3(x0, x1, y, y + 1, z0, z_end - 1, a[i]));
            }
        }
    }
}

/// `box3` holds exactly the points of its box, in strictly increasing order.
pub proof fn lemma_box3(x0: int, x1: int, y0: int, y_end: int, z0: int, z1: int)
    requires
        i32::MIN <= x0,
        x1 <= i32::MAX + 1,
        i32::MIN <= y0,
        y_end <= i32::MAX + 1,
        i32::MIN <= z0,
        z1 <= i32::MAX + 1,
    ensures
        forall|p: (i32, i32, i32)| #[trigger] box3(x0, x1, y0, y_end, z0, z1).contains(p)
            <==> in_box3(x0, x1, y0, y_end, z0, z1, p),
        sorted3(box3(x0, x1, y0, y_end, z0, z1)),
        forall|i: int| 0 <= i < box3(x0, x1, y0, y_end, z0, z1).len() ==> in_box3(x0, x1, y0, y_end, z0, z1, #[trigger] box3(x0, x1, y0, y_end, z0, z1)[i]),
    decreases y_end - y0,
{
    let s = box3(x0, x1, y0, y_end, z0, z1);
    if y_end > y0 {
        lemma_box3(x0, x1, y0, y_end - 1, z0, z1);
        lemma_plane3(x0, x1, y_end - 1, z0, z1);
        let a = box3(x0, x1, y0, y_end - 1, z0, z1);
        let r = plane3(x0, x1, y_end - 1, z0, z1);
        assert(s == a + r);
        assert forall|i: int| 0 <= i < s.len() implies in_box3(x0, x1, y0, y_end, z0, z1, #[trigger] s[i]) by {
            if i >= a.len() {
                assert(s[i] == r[i - a.len()]);
                assert(in_box3(x0, x1, y_end - 1, y_end, z0, z1, r[i - a.len()]));
            } else {
                assert(s[i] == a[i]);
            }
        }
        assert forall|p: (i32, i32, i32)| #[trigger] s.contains(p) <==> in_box3(x0, x1, y0, y_end, z0, z1, p) by {
            if in_box3(x0, x1, y0, y_end, z0, z1, p) {
                if p.1 < y_end - 1 {
                    assert(a.contains(p));
                    let k = choose|k: int| 0 <= k < a.len() && a[k] == p;
                    assert(s[k] == p);
                } else {
                    assert(r.contains(p));
                    let k = choose|k: int| 0 <= k < r.len() && r[k] == p;
                    assert(s[a.len() + k] == p);
                }
            }
            if s.contains(p) {
                let k = choose|k: int| 0 <= k < s.len() && s[k] == p;
                assert(in_box3(x0, x1, y0, y_end, z0, z1, s[k]));
            }
        }
        assert forall|i: int, j: int| 0 <= i < j < s.len() implies before3(#[trigger] s[i], #[trigger] s[j]) by {
            if j < a.len() {
                assert(s[i] == a[i] && s[j] == a[j]);
            } else if i >= a.len() {
                assert(s[i] == r[i - a.len()] && s[j] == r[j - a.len()]);
            } else {
                assert(s[i] == a[i] && s[j] == r[j - a.len()]);
                assert(in_box3(x0, x1, y0, y_end - 1, z0, z1, a[i]));
                assert(in_box3(x0, x1, y_end - 1, y_end, z0, z1, r[j - a.len()]));
            }
        }
    }
}

/// Taking the first row off a slab.
pub proof fn lemma_plane3_front(x0: int, x1: int, y: int, z0: int, z_end: int)
    requires
        z0 < z_end,
    ensures
        plane3(x0, x1, y, z0, z_end) == row3(x0, x1, y, z0) + plane3(x0, x1, y, z0 + 1, z_end),
    decreases z_end - z0,
{
    if z_end - 1 == z0 {
        assert(plane3(x0, x1, y, z0 + 1, z_end) =~= Seq::<(i32, i32, i32)>::empty());
        assert(plane3(x0, x1, y, z0, z_end - 1) =~= Seq::<(i32, i32, i32)>::empty());
        assert(plane3(x0, x1, y, z0, z_end) =~= row3(x0, x1, y, z0) + plane3(x0, x1, y, z0 + 1, z_end));
    } else {
        lemma_plane3_front(x0, x1, y, z0, z_end - 1);
        assert(plane3(x0, x1, y, z0, z_end) =~= row3(x0, x1, y, z0) + plane3(x0, x1, y, z0 + 1, z_end));
    }
}

/// Taking the first slab off a box.
pub proof fn lemma_box3_front(x0: int, x1: int, y0: int, y_end: int, z0: int, z1: int)
    requires
        y0 < y_end,
    ensures
        box3(x0, x1, y0, y_end, z0, z1) == plane3(x0, x1, y0, z0, z1) + box3(x0, x1, y0 + 1, y_end, z0, z1),
    decreases y_end - y0,
{
    if y_end - 1 == y0 {
        assert(box3(x0, x1, y0 + 1, y_end, z0, z1) =~= Seq::<(i32, i32, i32)>::empty());
        assert(box3(x0, x1, y0, y_end - 1, z0, z1) =~= Seq::<(i32, i32, i32)>::empty());
        assert(box3(x0, x1, y0, y_end, z0, z1) =~= plane3(x0, x1, y0, z0, z1) + box3(x0, x1, y0 + 1, y_end, z0, z1));
    } else {
        lemma_box3_front(x0, x1, y0, y_end - 1, z0, z1);
        assert(box3(x0, x1, y0, y_end, z0, z1) =~= plane3(x0, x1, y0, z0, z1) + box3(x0, x1, y0 + 1, y_end, z0, z1));
    }
}

/// A box with no width or no depth holds no points.
pub proof fn lemma_box3_flat(x0: int, x1: int, y0: int, y_end: int, z0: int, z1: int)
    requires
        x1 <= x0 || z1 <= z0,
    ensures
        box3(x0, x1, y0, y_end, z0, z1) == Seq::<(i32, i32, i32)>::empty(),
    decreases y_end - y0,
{
    if y_end > y0 {
        lemma_box3_flat(x0, x1, y0, y_end - 1, z0, z1);
        lemma_plane3_flat(x0, x1, y_end - 1, z0, z1);
        assert(box3(x0, x1, y0, y_end, z0, z1) =~= Seq::<(i32, i32, i32)>::empty());
    }
}

/// A slab with no width or no depth holds no points.
pub proof fn lemma_plane3_flat(x0: int, x1: int, y: int, z0: int, z_end: int)
    requires
        x1 <= x0 || z_end <= z0,
    ensures
        plane3(x0, x1, y, z0, z_end) == Seq::<(i32, i32, i32)>::empty(),
    decreases z_end - z0,
{
    if z_end > z0 {
        lemma_plane3_flat(x0, x1, y, z0, z_end - 1);
        assert(row3(x0, x1, y, z_end - 1) =~= Seq::<(i32, i32, i32)>::empty());
        assert(plane3(x0, x1, y, z0, z_end) =~= Seq::<(i32, i32, i32)>::empty());
    }
}

/// The number of points in a slab.
pub proof fn lemma_plane3_len(x0: int, x1: int, y: int, z0: int, z_end: int)
    ensures
        plane3(x0, x1, y, z0, z_end).len() == (if z_end > z0 { z_end - z0 } else { 0 }) * (if x1 > x0 { x1 - x0 } else { 0 }),
    decreases z_end - z0,
{
    if z_end > z0 {
        lemma_plane3_len(x0, x1, y, z0, z_end - 1);
        let w = if x1 > x0 { x1 - x0 } else { 0 };
        assert((z_end - 1 - z0) * w + w == (z_end - z0) * w) by (nonlinear_arith);
    }
}

/// The number of points in a box.
pub proof fn lemma_box3_len(x0: int, x1: int, y0: int, y_end: int, z0: int, z1: int)
    ensures
        box3(x0, x1, y0, y_end, z0, z1).len() == (if y_end > y0 { y_end - y0 } else { 0 }) * ((if z1 > z0 { z1 - z0 } else { 0 }) * (if x1 > x0 { x1 - x0 } else { 0 })),
    decreases y_end - y0,
{
    lemma_plane3_len(x0, x1, y_end - 1, z0, z1);
    if y_end > y0 {
        lemma_box3_len(x0, x1, y0, y_end - 1, z0, z1);
        let a = (if z1 > z0 { z1 - z0 } else { 0 }) * (if x1 > x0 { x1 - x0 } else { 0 });
        assert((y_end - 1 - y0) * a + a == (y_end - y0) * a) by (nonlinear_arith);
    }
}

impl Bounds3D {
    /// Whether `point` lies inside the bounds (inclusive minimum, exclusive maximum).
    pub open spec fn contains_spec(self, point: (i32, i32, i32)) -> bool {
        in_box3(
            self.min.0 as int,
            self.max.0 as int,
            self.min.1 as int,
            self.max.1 as int,
            self.min.2 as int,
            self.max.2 as int,
            point,
        )
    }

    /// Whether the bounds are ordered: `min <= max` on every axis.
    pub open spec fn ordered(self) -> bool {
        self.min.0 <= self.max.0 && self.min.1 <= self.max.1 && self.min.2 <= self.max.2
    }

    /// Whether the bounds overlap with `other` on every axis.
    pub open spec fn intersects_spec(self, other: Self) -> bool {
        &&& self.min.0 < other.max.0
        &&& other.min.0 < self.max.0
        &&& self.min.1 < other.max.1
        &&& other.min.1 < self.max.1
        &&& self.min.2 < other.max.2
        &&& other.min.2 < self.max.2
    }

    /// The points of the bounds in iteration order: `x` fastest, then `z`, then `y`.
    pub open spec fn points(self) -> Seq<(i32, i32, i32)> {
        box3(
            self.min.0 as int,
            self.max.0 as int,
            self.min.1 as int,
            self.max.1 as int,
            self.min.2 as int,
            self.max.2 as int,
        )
    }

    /// The width: the difference of the bounds truncated to 32 bits.
    pub open spec fn width_spec(self) -> u32 {
        (self.max.0 - self.min.0) as u32
    }

    /// The height: the difference of the bounds truncated to 32 bits.
    pub open spec fn height_spec(self) -> u32 {
        (self.max.1 - self.min.1) as u32
    }

    /// The depth: the difference of the bounds truncated to 32 bits.
    pub open spec fn depth_spec(self) -> u32 {
        (self.max.2 - self.min.2) as u32
    }

    /// Create a new [Bounds3D] with the specified minimum and maximum bounds.
    pub fn new(min: (i32, i32, i32), max: (i32, i32, i32)) -> (r: Self)
        ensures
            r.min == min,
            r.max == max,
    {
        Self { min, max }
    }

    /// Create a new [Bounds3D] from two unordered points.
    pub fn from_bounds(a: (i32, i32, i32), b: (i32, i32, i32)) -> (r: Self)
        ensures
            r.min.0 == (if a.0 <= b.0 { a.0 } else { b.0 }),
            r.min.1 == (if a.1 <= b.1 { a.1 } else { b.1 }),
            r.min.2 == (if a.2 <= b.2 { a.2 } else { b.2 }),
            r.max.0 == (if a.0 <= b.0 { b.0 } else { a.0 }),
            r.max.1 == (if a.1 <= b.1 { b.1 } else { a.1 }),
            r.max.2 == (if a.2 <= b.2 { b.2 } else { a.2 }),
            r.ordered(),
    {
        let x_min = if a.0 <= b.0 { a.0 } else { b.0 };
        let y_min = if a.1 <= b.1 { a.1 } else { b.1 };
        let z_min = if a.2 <= b.2 { a.2 } else { b.2 };
        let x_max = if a.0 <= b.0 { b.0 } else { a.0 };
        let y_max = if a.1 <= b.1 { b.1 } else { a.1 };
        let z_max = if a.2 <= b.2 { b.2 } else { a.2 };
        Self { min: (x_min, y_min, z_min), max: (x_max, y_max, z_max) }
    }

    /// The size along the X axis.
    pub fn width(&self) -> (r: u32)
        ensures
            r == self.width_spec(),
            self.min.0 <= self.max.0 ==> r == self.max.0 - self.min.0,
    {
        (self.max.0 as i64 - self.min.0 as i64) as u32
    }

    /// The size along the Y axis.
    pub fn height(&self) -> (r: u32)
        ensures
            r == self.height_spec(),
            self.min.1 <= self.max.1 ==> r == self.max.1 - self.min.1,
    {
        (self.max.1 as i64 - self.min.1 as i64) as u32
    }

    /// The size along the Z axis.
    pub fn depth(&self) -> (r: u32)
        ensures
            r == self.depth_spec(),
            self.min.2 <= self.max.2 ==> r == self.max.2 - self.min.2,
    {
        (self.max.2 as i64 - self.min.2 as i64) as u32
    }

    /// The volume is `width * height * depth`.
    pub fn volume(&self) -> (r: i128)
        ensures
            r == self.width_spec() * self.height_spec() * self.depth_spec(),
    {
        let w = self.width() as i128;
        let h = self.height() as i128;
        let d = self.depth() as i128;
        assert(w * h <= 0xffff_ffff * 0xffff_ffff) by (nonlinear_arith)
            requires
                0 <= w <= 0xffff_ffff,
                0 <= h <= 0xffff_ffff,
        ;
        assert(w * h * d <= 0xffff_ffff * 0xffff_ffff * 0xffff_ffff) by (nonlinear_arith)
            requires
                0 <= w * h <= 0xffff_ffff * 0xffff_ffff,
                0 <= d <= 0xffff_ffff,
        ;
        w * h * d
    }

    /// The minumum bound along the `X` axis.
    pub fn x_min(&self) -> (r: i32)
        ensures
            r == self.min.0,
    {
        self.min.0
    }

    /// The minimum bound along the `Y` axis.
    pub fn y_min(&self) -> (r: i32)
        ensures
            r == self.min.1,
    {
        self.min.1
    }

    /// The minimum bound along the `Z` axis.
    pub fn z_min(&self) -> (r: i32)
        ensures
            r == self.min.2,
    {
        self.min.2
    }

    /// The maximum bound along the `X` axis (exclusive).
    pub fn x_max(&self) -> (r: i32)
        ensures
            r == self.max.0,
    {
        self.max.0
    }

    /// The maxmimum bound along the `Y` axis (exclusive).
    pub fn y_max(&self) -> (r: i32)
        ensures
            r == self.max.1,
    {
        self.max.1
    }

    /// The maximum bound along the `Z` axis (exclusive).
    pub fn z_max(&self) -> (r: i32)
        ensures
            r == self.max.2,
    {
        self.max.2
    }

    /// Tests for intersection with another [Bounds3D].
    pub fn intersects(self, other: Bounds3D) -> (r: bool)
        ensures
            r == self.intersects_spec(other),
            r && self.min.0 < self.max.0 && self.min.1 < self.max.1 && self.min.2 < self.max.2
                && other.min.0 < other.max.0 && other.min.1 < other.max.1 && other.min.2
                < other.max.2 ==> exists|p: (i32, i32, i32)|
                self.contains_spec(p) && other.contains_spec(p),
            !r ==> forall|p: (i32, i32, i32)| !(self.contains_spec(p) && #[trigger] other.contains_spec(p)),
    {
        let (ax_min, ay_min, az_min) = self.min;
        let (ax_max, ay_max, az_max) = self.max;
        let (bx_min, by_min, bz_min) = other.min;
        let (bx_max, by_max, bz_max) = other.max;
        let r = ax_min < bx_max && bx_min < ax_max && ay_min < by_max && by_min < ay_max && az_min
            < bz_max && bz_min < az_max;
        if r && ax_min < ax_max && ay_min < ay_max && az_min < az_max && bx_min < bx_max && by_min
            < by_max && bz_min < bz_max {
            let px = if ax_min <= bx_min { bx_min } else { ax_min };
            let py = if ay_min <= by_min { by_min } else { ay_min };
            let pz = if az_min <= bz_min { bz_min } else { az_min };
            assert(self.contains_spec((px, py, pz)) && other.contains_spec((px, py, pz)));
        }
        r
    }

    /// Determine if a point is within the [Bounds3D].
    pub fn contains(self, point: (i32, i32, i32)) -> (r: bool)
        ensures
            r == self.contains_spec(point),
    {
        point.0 >= self.min.0 && point.1 >= self.min.1 && point.2 >= self.min.2 && point.0
            < self.max.0 && point.1 < self.max.1 && point.2 < self.max.2
    }

    /// Iterate over the points in the [Bounds3D].
    pub fn iter(self) -> (r: Bounds3DIter)
        ensures
            r.bounds() == self,
            r.wf(),
            r.remaining() == self.points(),
    {
        let nonempty = self.min.0 < self.max.0 && self.min.1 < self.max.1 && self.min.2
            < self.max.2;
        let current = if nonempty {
            self.min
        } else {
            (self.min.0, self.max.1, self.min.2)
        };
        proof {
            let (x0, x1, y0, y1, z0, z1) = (
                self.min.0 as int,
                self.max.0 as int,
                self.min.1 as int,
                self.max.1 as int,
                self.min.2 as int,
                self.max.2 as int,
            );
            if nonempty {
                lemma_box3_front(x0, x1, y0, y1, z0, z1);
                lemma_plane3_front(x0, x1, y0, z0, z1);
            } else if y0 < y1 {
                lemma_box3_flat(x0, x1, y0, y1, z0, z1);
            }
        }
        Bounds3DIter { bounds: self, current }
    }
}

/// Iterator for all points within a [Bounds3D].
pub struct Bounds3DIter {
    bounds: Bounds3D,
    current: (i32, i32, i32),
}

impl Bounds3DIter {
    /// The bounds being iterated.
    pub closed spec fn bounds(self) -> Bounds3D {
        self.bounds
    }

    /// The iterator is either at a point of the bounds or exhausted.
    pub closed spec fn wf(self) -> bool {
        ||| self.bounds.contains_spec(self.current)
        ||| self.current == (self.bounds.min.0, self.bounds.max.1, self.bounds.min.2)
    }

    /// The points still to be returned, in order.
    pub closed spec fn remaining(self) -> Seq<(i32, i32, i32)> {
        let b = self.bounds;
        let c = self.current;
        if c.1 == b.max.1 {
            Seq::empty()
        } else {
            row3(c.0 as int, b.max.0 as int, c.1 as int, c.2 as int) + plane3(
                b.min.0 as int,
                b.max.0 as int,
                c.1 as int,
                c.2 + 1,
                b.max.2 as int,
            ) + box3(
                b.min.0 as int,
                b.max.0 as int,
                c.1 + 1,
                b.max.1 as int,
                b.min.2 as int,
                b.max.2 as int,
            )
        }
    }

    /// The number of points still to be returned, as a lower and an upper bound.
    pub fn size_hint(&self) -> (r: (usize, Option<usize>))
        requires
            self.wf(),
            self.remaining().len() <= usize::MAX,
        ensures
            r == (self.remaining().len() as usize, Some(self.remaining().len() as usize)),
    {
        let b = self.bounds;
        let c = self.current;
        if c.1 == b.max.1 {
            return (0, Some(0));
        }
        proof {
            lemma_plane3_len(b.min.0 as int, b.max.0 as int, c.1 as int, c.2 + 1, b.max.2 as int);
            lemma_box3_len(b.min.0 as int, b.max.0 as int, c.1 + 1, b.max.1 as int, b.min.2 as int, b.max.2 as int);
        }
        let width = (b.max.0 as i64 - b.min.0 as i64) as u128;
        let depth = (b.max.2 as i64 - b.min.2 as i64) as u128;
        let planes_after = (b.max.1 as i64 - c.1 as i64 - 1) as u128;
        let rows_after = (b.max.2 as i64 - c.2 as i64 - 1) as u128;
        let in_row = (b.max.0 as i64 - c.0 as i64) as u128;
        assert(planes_after * (depth * width) + rows_after * width + in_row <= 0xffff_ffff_ffff_ffff_ffff_ffffu128) by (nonlinear_arith)
            requires
                planes_after <= 0xffff_ffffu128,
                depth <= 0xffff_ffffu128,
                width <= 0xffff_ffffu128,
                rows_after <= depth,
                in_row <= width,
        ;
        assert(depth * width <= 0xffff_ffff_ffff_ffffu128) by (nonlinear_arith)
            requires
                depth <= 0xffff_ffffu128,
                width <= 0xffff_ffffu128,
        ;
        assert(rows_after * width <= 0xffff_ffff_ffff_ffffu128) by (nonlinear_arith)
            requires
                rows_after <= 0xffff_ffffu128,
                width <= 0xffff_ffffu128,
        ;
        assert(planes_after * (depth * width) <= 0xffff_ffff_ffff_ffff_ffff_ffffu128) by (nonlinear_arith)
            requires
                planes_after <= 0xffff_ffffu128,
                depth * width <= 0xffff_ffff_ffff_ffffu128,
        ;
        let n = planes_after * (depth * width) + rows_after * width + in_row;
        (n as usize, Some(n as usize))
    }

    /// Returns the next point, or `None` when all points have been returned.
    pub fn next(&mut self) -> (r: Option<(i32, i32, i32)>)
        requires
            old(self).wf(),
        ensures
            final(self).wf(),
            final(self).bounds() == old(self).bounds(),
            old(self).remaining().len() == 0 ==> r is None && final(self).remaining() == old(self).remaining(),
            old(self).remaining().len() > 0 ==> r == Some(old(self).remaining()[0])
                && final(self).remaining() == old(self).remaining().drop_first(),
    {
        if self.current.1 == self.bounds.max.1 {
            return None;
        }
        let result = self.current;
        let b = self.bounds;
        self.current = if result.0 + 1 == b.max.0 {
            if result.2 + 1 == b.max.2 {
                (b.min.0, result.1 + 1, b.min.2)
            } else {
                (b.min.0, result.1, result.2 + 1)
            }
        } else {
            (result.0 + 1, result.1, result.2)
        };
        proof {
            let o = old(self).remaining();
            let n = self.remaining();
            let (x0, x1, y1, z0, z1) = (b.min.0 as int, b.max.0 as int, b.max.1 as int, b.min.2 as int, b.max.2 as int);
            let (cx, cy, cz) = (result.0 as int, result.1 as int, result.2 as int);
            assert(o[0] == result);
            if cx + 1 == x1 {
                assert(row3(cx, x1, cy, cz) =~= seq![result]);
                if cz + 1 == z1 {
                    assert(plane3(x0, x1, cy, cz + 1, z1) =~= Seq::<(i32, i32, i32)>::empty());
                    if cy + 1 == y1 {
                        assert(box3(x0, x1, cy + 1, y1, z0, z1) =~= Seq::<(i32, i32, i32)>::empty());
                        assert(n =~= o.drop_first());
                    } else {
                        lemma_box3_front(x0, x1, cy + 1, y1, z0, z1);
                        lemma_plane3_front(x0, x1, cy + 1, z0, z1);
                        assert(n =~= o.drop_first());
                    }
                } else {
                    lemma_plane3_front(x0, x1, cy, cz + 1, z1);
                    assert(n =~= o.drop_first());
                }
            } else {
                assert(n =~= o.drop_first());
            }
        }
        Some(result)
    }
}

/// Intersection is symmetric.
pub proof fn lemma_intersects_symmetric3(a: Bounds3D, b: Bounds3D)
    ensures
        a.intersects_spec(b) == b.intersects_spec(a),
{
}

/// Iterating bounds visits exactly the points they contain, each once, in iteration
/// order; for ordered bounds there are `width * height * depth` of them.
pub proof fn lemma_points3(b: Bounds3D)
    ensures
        forall|p: (i32, i32, i32)| #[trigger] b.points().contains(p) <==> b.contains_spec(p),
        sorted3(b.points()),
        b.ordered() ==> b.points().len() == b.width_spec() * b.height_spec() * b.depth_spec(),
{
    lemma_box3(b.min.0 as int, b.max.0 as int, b.min.1 as int, b.max.1 as int, b.min.2 as int, b.max.2 as int);
    lemma_box3_len(b.min.0 as int, b.max.0 as int, b.min.1 as int, b.max.1 as int, b.min.2 as int, b.max.2 as int);
    if b.ordered() {
        let (w, h, d) = (b.width_spec() as int, b.height_spec() as int, b.depth_spec() as int);
        assert((h * (d * w)) == w * h * d) by (nonlinear_arith);
    }
}

/// Two bounds are equal exactly when their minimum and their maximum are equal, every
/// coordinate of them.
pub proof fn lemma_eq3(a: Bounds3D, b: Bounds3D)
    ensures
        vstd::std_specs::cmp::PartialEqSpec::eq_spec(&a, &b) <==> (a.min.0 == b.min.0 && a.min.1 == b.min.1 && a.min.2 == b.min.2 && a.max.0 == b.max.0 && a.max.1 == b.max.1 && a.max.2 == b.max.2),
        vstd::std_specs::cmp::PartialEqSpec::eq_spec(&a, &b) <==> a == b,
{
}

/// A point lies in bounds exactly when, on every axis, it is at least the minimum and
/// below the maximum.
pub proof fn lemma_contains3(b: Bounds3D, p: (i32, i32, i32))
    ensures
        b.contains_spec(p) <==> (b.min.0 <= p.0 && p.0 < b.max.0 && b.min.1 <= p.1 && p.1 < b.max.1 && b.min.2 <= p.2 && p.2 < b.max.2),
{
}

/// Two bounds intersect exactly when, on every axis, each one's minimum is below the
/// other's maximum; when neither is empty, that is when they share a point.
pub proof fn lemma_intersects3(a: Bounds3D, b: Bounds3D)
    ensures
        a.intersects_spec(b) <==> (a.min.0 < b.max.0 && b.min.0 < a.max.0 && a.min.1 < b.max.1 && b.min.1 < a.max.1 && a.min.2 < b.max.2 && b.min.2 < a.max.2),
{
}

/// The size of ordered bounds along each axis is the maximum minus the minimum.
pub proof fn lemma_size3(b: Bounds3D)
    ensures
        b.min.0 <= b.max.0 ==> b.width_spec() == b.max.0 - b.min.0,
        b.min.1 <= b.max.1 ==> b.height_spec() == b.max.1 - b.min.1,
        b.min.2 <= b.max.2 ==> b.depth_spec() == b.max.2 - b.min.2,
{
}

} // verus!
