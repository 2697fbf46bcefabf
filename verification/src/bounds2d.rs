use vstd::prelude::*;

verus! {

/// A 2D bounding box. Essentially a rectangle.
#[derive(Debug, Default, Clone, Copy, Eq, PartialOrd, Ord, Hash)]
pub struct Bounds2D {
    /// Inclusive minimum bound.
    pub min: (i32, i32),
    /// Exclusive maximum bound.
    pub max: (i32, i32),
}

impl PartialEq for Bounds2D {
    fn eq(&self, other: &Self) -> (r: bool) {
        self.min.0 == other.min.0 && self.min.1 == other.min.1 && self.max.0 == other.max.0
            && self.max.1 == other.max.1
    }
}

impl vstd::std_specs::cmp::PartialEqSpecImpl for Bounds2D {
    open spec fn obeys_eq_spec() -> bool {
        true
    }

    open spec fn eq_spec(&self, other: &Self) -> bool {
        self.min == other.min && self.max == other.max
    }
}

/// The points `(x, y)` with `x0 <= x < x1`, in increasing `x`.
pub open spec fn row2(x0: int, x1: int, y: int) -> Seq<(i32, i32)> {
    Seq::new(if x1 > x0 { (x1 - x0) as nat } else { 0 }, |i: int| ((x0 + i) as i32, y as i32))
}

/// The points of the box `[x0, x1) x [y0, y_end)`, row by row (`y` outer, `x` inner).
pub open spec fn rows2(x0: int, x1: int, y0: int, y_end: int) -> Seq<(i32, i32)>
    decreases y_end - y0,
{
    if y_end <= y0 {
        Seq::empty()
    } else {
        rows2(x0, x1, y0, y_end - 1) + row2(x0, x1, y_end - 1)
    }
}

/// Whether `p` lies in the box `[x0, x1) x [y0, y1)`.
pub open spec fn in_box2(x0: int, x1: int, y0: int, y1: int, p: (i32, i32)) -> bool {
    x0 <= p.0 < x1 && y0 <= p.1 < y1
}

/// Row-major order on points: `y` first, then `x`.
pub open spec fn before2(a: (i32, i32), b: (i32, i32)) -> bool {
    a.1 < b.1 || (a.1 == b.1 && a.0 < b.0)
}

/// A sequence of points strictly increasing in row-major order.
pub open spec fn sorted2(s: Seq<(i32, i32)>) -> bool {
    forall|i: int, j: int| 0 <= i < j < s.len() ==> before2(#[trigger] s[i], #[trigger] s[j])
}

/// `rows2` holds exactly the points of its box, in strictly increasing row-major order.
pub proof fn lemma_rows2(x0: int, x1: int, y0: int, y_end: int)
    requires
        i32::MIN <= x0,
        x1 <= i32::MAX + 1,
        i32::MIN <= y0,
        y_end <= i32::MAX + 1,
    ensures
        forall|p: (i32, i32)| #[trigger] rows2(x0, x1, y0, y_end).contains(p) <==> in_box2(x0, x1, y0, y_end, p),
        sorted2(rows2(x0, x1, y0, y_end)),
        forall|i: int| 0 <= i < rows2(x0, x1, y0, y_end).len() ==> in_box2(x0, x1, y0, y_end, #[trigger] rows2(x0, x1, y0, y_end)[i]),
    decreases y_end - y0,
{
    let s = rows2(x0, x1, y0, y_end);
    if y_end <= y0 {
        assert(s.len() == 0);
    } else {
        lemma_rows2(x0, x1, y0, y_end - 1);
        let a = rows2(x0, x1, y0, y_end - 1);
        let r = row2(x0, x1, y_end - 1);
        assert(s == a + r);
        assert forall|i: int| 0 <= i < s.len() implies in_box2(x0, x1, y0, y_end, #[trigger] s[i]) by {
            if i >= a.len() {
                assert(s[i] == r[i - a.len()]);
            } else {
                assert(s[i] == a[i]);
            }
        }
        assert forall|p: (i32, i32)| #[trigger] s.contains(p) <==> in_box2(x0, x1, y0, y_end, p) by {
            if in_box2(x0, x1, y0, y_end, p) {
                if p.1 < y_end - 1 {
                    assert(a.contains(p));
                    let k = choose|k: int| 0 <= k < a.len() && a[k] == p;
                    assert(s[k] == p);
                } else {
                    let k = p.0 - x0;
                    assert(r[k] == p);
                    assert(s[a.len() + k] == p);
                }
            }
            if s.contains(p) {
                let k = choose|k: int| 0 <= k < s.len() && s[k] == p;
                assert(in_box2(x0, x1, y0, y_end, s[k]));
            }
        }
        assert forall|i: int, j: int| 0 <= i < j < s.len() implies before2(#[trigger] s[i], #[trigger] s[j]) by {
            if j < a.len() {
                assert(s[i] == a[i] && s[j] == a[j]);
            } else if i >= a.len() {
                assert(s[i] == r[i - a.len()] && s[j] == r[j - a.len()]);
            } else {
                assert(s[i] == a[i] && s[j] == r[j - a.len()]);
                assert(in_box2(x0, x1, y0, y_end - 1, a[i]));
            }
        }
    }
}

/// A sorted sequence holds no point twice.
pub proof fn lemma_sorted2_distinct(s: Seq<(i32, i32)>)
    requires
        sorted2(s),
    ensures
        forall|i: int, j: int| 0 <= i < s.len() && 0 <= j < s.len() && i != j ==> s[i] != s[j],
{
    assert forall|i: int, j: int| 0 <= i < s.len() && 0 <= j < s.len() && i != j implies s[i] != s[j] by {
        if i < j {
            assert(before2(s[i], s[j]));
        } else {
            assert(before2(s[j], s[i]));
        }
    }
}

impl Bounds2D {
    /// Whether `point` lies inside the bounds (inclusive minimum, exclusive maximum).
    pub open spec fn contains_spec(self, point: (i32, i32)) -> bool {
        in_box2(self.min.0 as int, self.max.0 as int, self.min.1 as int, self.max.1 as int, point)
    }

    /// Whether the bounds are ordered: `min <= max` on both axes.
    pub open spec fn ordered(self) -> bool {
        self.min.0 <= self.max.0 && self.min.1 <= self.max.1
    }

    /// Whether the bounds overlap with `other` on both axes.
    pub open spec fn intersects_spec(self, other: Self) -> bool {
        self.min.0 < other.max.0 && other.min.0 < self.max.0 && self.min.1 < other.max.1 && other.min.1 < self.max.1
    }

    /// The points of the bounds in iteration order: row by row, `x` fastest.
    pub open spec fn points(self) -> Seq<(i32, i32)> {
        rows2(self.min.0 as int, self.max.0 as int, self.min.1 as int, self.max.1 as int)
    }

    /// The width: the difference of the bounds truncated to 32 bits.
    pub open spec fn width_spec(self) -> u32 {
        (self.max.0 - self.min.0) as u32
    }

    /// The height: the difference of the bounds truncated to 32 bits.
    pub open spec fn height_spec(self) -> u32 {
        (self.max.1 - self.min.1) as u32
    }

    /// Create a new [Bounds2D] from an inclusive min and exclusive max.
    /// If you don't know the min/max bounds, you can use `from_bounds`
    /// to create a [Bounds2D] from arbitrary coordinates.
    pub fn new(min: (i32, i32), max: (i32, i32)) -> (r: Self)
        ensures
            r.min == min,
            r.max == max,
    {
        Self { min: min, max: max }
    }

    /// Create a new [Bounds2D] by resolving the inclusive min and exclusive max from two coordinates.
    pub fn from_bounds(a: (i32, i32), b: (i32, i32)) -> (r: Self)
        ensures
            r.min.0 == (if a.0 <= b.0 { a.0 } else { b.0 }),
            r.min.1 == (if a.1 <= b.1 { a.1 } else { b.1 }),
            r.max.0 == (if a.0 <= b.0 { b.0 } else { a.0 }),
            r.max.1 == (if a.1 <= b.1 { b.1 } else { a.1 }),
            r.ordered(),
    {
        let (ax, ay) = a;
        let (bx, by) = b;
        let min = (if ax <= bx { ax } else { bx }, if ay <= by { ay } else { by });
        let max = (if ax <= bx { bx } else { ax }, if ay <= by { by } else { ay });
        Self { min, max }
    }

    /// The size along the X axis.
    pub fn width(&self) -> (r: u32)
        ensures
            r == self.width_spec(),
            self.min.0 <= self.max.0 ==> r == self.max.0 - self.min.0,
    {
        (self.max.0 as i64 - self.min.0 as i64) as u32
    }

    /// The size along the Y axis.
    pub fn height(&self) -> (r: u32)
        ensures
            r == self.height_spec(),
            self.min.1 <= self.max.1 ==> r == self.max.1 - self.min.1,
    {
        (self.max.1 as i64 - self.min.1 as i64) as u32
    }

    /// `width` * `height`.
    pub fn area(&self) -> (r: i64)
        requires
            self.width_spec() * self.height_spec() <= i64::MAX,
        ensures
            r == self.width_spec() * self.height_spec(),
    {
        let w = self.width() as i64;
        let h = self.height() as i64;
        w * h
    }

    /// The minimum bound on the X axis.
    pub fn x_min(&self) -> (r: i32)
        ensures
            r == self.min.0,
    {
        self.min.0
    }

    /// The minimum bound on the Y axis.
    pub fn y_min(&self) -> (r: i32)
        ensures
            r == self.min.1,
    {
        self.min.1
    }

    /// The maximum bound on the X axis (exclusive).
    pub fn x_max(&self) -> (r: i32)
        ensures
            r == self.max.0,
    {
        self.max.0
    }

    /// The maximum bound on the Y axis (exclusive).
    pub fn y_max(&self) -> (r: i32)
        ensures
            r == self.max.1,
    {
        self.max.1
    }

    /// Tests for intersection with another [Bounds2D].
    pub fn intersects(self, other: Bounds2D) -> (r: bool)
        ensures
            r == self.intersects_spec(other),
            r && self.min.0 < self.max.0 && self.min.1 < self.max.1 && other.min.0 < other.max.0
                && other.min.1 < other.max.1 ==> exists|p: (i32, i32)|
                self.contains_spec(p) && other.contains_spec(p),
            !r ==> forall|p: (i32, i32)| !(self.contains_spec(p) && #[trigger] other.contains_spec(p)),
    {
        let ((ax_min, ay_min), (ax_max, ay_max)) = (self.min, self.max);
        let ((bx_min, by_min), (bx_max, by_max)) = (other.min, other.max);
        let r = ax_min < bx_max && bx_min < ax_max && ay_min < by_max && by_min < ay_max;
        if r && ax_min < ax_max && ay_min < ay_max && bx_min < bx_max && by_min < by_max {
            let px = if ax_min <= bx_min { bx_min } else { ax_min };
            let py = if ay_min <= by_min { by_min } else { ay_min };
            assert(self.contains_spec((px, py)) && other.contains_spec((px, py)));
        }
        r
    }

    /// Determine if a point is within the [Bounds2D].
    pub fn contains(self, point: (i32, i32)) -> (r: bool)
        ensures
            r == self.contains_spec(point),
    {
        point.0 >= self.min.0 && point.1 >= self.min.1 && point.0 < self.max.0 && point.1
            < self.max.1
    }

    /// Iterate the coordinates in the [Bounds2D].
    pub fn iter(self) -> (r: Bounds2DIter)
        ensures
            r.bounds() == self,
            r.wf(),
            r.remaining() == self.points(),
    {
        let current = if self.min.0 < self.max.0 && self.min.1 < self.max.1 {
            self.min
        } else {
            (self.min.0, self.max.1)
        };
        let r = Bounds2DIter { bounds: self, current };
        proof {
            if self.min.0 < self.max.0 && self.min.1 < self.max.1 {
                lemma_rows2_front(self.min.0 as int, self.max.0 as int, self.min.1 as int, self.max.1 as int);
            } else {
                if self.min.1 < self.max.1 {
                    lemma_rows2_empty_width(self.min.0 as int, self.max.0 as int, self.min.1 as int, self.max.1 as int);
                }
            }
        }
        r
    }
}

/// A box with no width holds no points.
pub proof fn lemma_rows2_empty_width(x0: int, x1: int, y0: int, y_end: int)
    requires
        x1 <= x0,
    ensures
        rows2(x0, x1, y0, y_end) == Seq::<(i32, i32)>::empty(),
    decreases y_end - y0,
{
    if y_end > y0 {
        lemma_rows2_empty_width(x0, x1, y0, y_end - 1);
        assert(row2(x0, x1, y_end - 1) =~= Seq::<(i32, i32)>::empty());
        assert(rows2(x0, x1, y0, y_end) =~= Seq::<(i32, i32)>::empty());
    }
}

/// Iterator for all points within a [Bounds2D].
pub struct Bounds2DIter {
    bounds: Bounds2D,
    current: (i32, i32),
}

impl Bounds2DIter {
    /// The bounds being iterated.
    pub closed spec fn bounds(self) -> Bounds2D {
        self.bounds
    }

    /// The next point to be returned.
    pub closed spec fn current(self) -> (i32, i32) {
        self.current
    }

    /// The iterator is either at a point of the bounds or exhausted.
    pub closed spec fn wf(self) -> bool {
        ||| self.bounds.contains_spec(self.current)
        ||| self.current == (self.bounds.min.0, self.bounds.max.1)
    }

    /// The points still to be returned, in order.
    pub closed spec fn remaining(self) -> Seq<(i32, i32)> {
        if self.current.1 == self.bounds.max.1 {
            Seq::empty()
        } else {
            row2(self.current.0 as int, self.bounds.max.0 as int, self.current.1 as int) + rows2(
                self.bounds.min.0 as int,
                self.bounds.max.0 as int,
                self.current.1 + 1,
                self.bounds.max.1 as int,
            )
        }
    }

    /// The number of points still to be returned, as a lower and an upper bound.
    pub fn size_hint(&self) -> (r: (usize, Option<usize>))
        requires
            self.wf(),
            self.remaining().len() <= usize::MAX,
        ensures
            r == (self.remaining().len() as usize, Some(self.remaining().len() as usize)),
    {
        proof {
            lemma_rows2_len(self.bounds.min.0 as int, self.bounds.max.0 as int, self.current.1 + 1, self.bounds.max.1 as int);
        }
        if self.current.1 == self.bounds.max.1 {
            return (0, Some(0));
        }
        let width = (self.bounds.max.0 as i64 - self.bounds.min.0 as i64) as u64;
        let rows_after = (self.bounds.max.1 as i64 - self.current.1 as i64 - 1) as u64;
        let in_row = (self.bounds.max.0 as i64 - self.current.0 as i64) as u64;
        assert(rows_after * width + in_row <= u64::MAX) by (nonlinear_arith)
            requires
                rows_after <= 0xffff_fffeu64,
                width <= 0xffff_ffffu64,
                in_row <= width,
        ;
        let n = rows_after * width + in_row;
        (n as usize, Some(n as usize))
    }

    /// Returns the next point, or `None` when all points have been returned.
    pub fn next(&mut self) -> (r: Option<(i32, i32)>)
        requires
            old(self).wf(),
        ensures
            final(self).wf(),
            final(self).bounds() == old(self).bounds(),
            old(self).remaining().len() == 0 ==> r is None && final(self).remaining() == old(self).remaining(),
            old(self).remaining().len() > 0 ==> r == Some(old(self).remaining()[0])
                && final(self).remaining() == old(self).remaining().drop_first(),
    {
        proof {
            self.lemma_remaining_unfold();
        }
        if self.current.1 == self.bounds.max.1 {
            return None;
        }
        let result = self.current;
        if result.0 + 1 == self.bounds.max.0 {
            self.current = (self.bounds.min.0, result.1 + 1);
        } else {
            self.current = (result.0 + 1, result.1);
        }
        proof {
            self.lemma_remaining_unfold();
            let o = old(self).remaining();
            let n = self.remaining();
            if result.0 + 1 == self.bounds.max.0 {
                if result.1 + 1 == self.bounds.max.1 {
                    assert(o.len() == 1);
                    assert(n =~= o.drop_first());
                } else {
                    lemma_rows2_front(self.bounds.min.0 as int, self.bounds.max.0 as int, result.1 + 1, self.bounds.max.1 as int);
                    assert(n =~= o.drop_first());
                }
            } else {
                assert(n =~= o.drop_first());
            }
        }
        Some(result)
    }

    proof fn lemma_remaining_unfold(self)
        requires
            self.wf(),
        ensures
            self.current.1 != self.bounds.max.1 ==> self.remaining().len() > 0 && self.remaining()[0] == self.current,
            self.current.1 == self.bounds.max.1 ==> self.remaining().len() == 0,
    {
    }
}

/// Taking the first row off a box of rows.
pub proof fn lemma_rows2_front(x0: int, x1: int, y0: int, y_end: int)
    requires
        y0 < y_end,
    ensures
        rows2(x0, x1, y0, y_end) == row2(x0, x1, y0) + rows2(x0, x1, y0 + 1, y_end),
    decreases y_end - y0,
{
    if y_end - 1 == y0 {
        assert(rows2(x0, x1, y0 + 1, y_end) =~= Seq::<(i32, i32)>::empty());
        assert(rows2(x0, x1, y0, y_end - 1) =~= Seq::<(i32, i32)>::empty());
        assert(rows2(x0, x1, y0, y_end) =~= row2(x0, x1, y0) + rows2(x0, x1, y0 + 1, y_end));
    } else {
        lemma_rows2_front(x0, x1, y0, y_end - 1);
        assert(rows2(x0, x1, y0, y_end) =~= row2(x0, x1, y0) + rows2(x0, x1, y0 + 1, y_end));
    }
}

/// The number of points in a box of rows.
pub proof fn lemma_rows2_len(x0: int, x1: int, y0: int, y_end: int)
    ensures
        rows2(x0, x1, y0, y_end).len() == (if y_end > y0 { y_end - y0 } else { 0 }) * (if x1 > x0 { x1 - x0 } else { 0 }),
    decreases y_end - y0,
{
    if y_end > y0 {
        lemma_rows2_len(x0, x1, y0, y_end - 1);
        let w = if x1 > x0 { x1 - x0 } else { 0 };
        assert((y_end - 1 - y0) * w + w == (y_end - y0) * w) by (nonlinear_arith);
    }
}

/// Intersection is symmetric.
pub proof fn lemma_intersects_symmetric2(a: Bounds2D, b: Bounds2D)
    ensures
        a.intersects_spec(b) == b.intersects_spec(a),
{
}

/// Iterating bounds visits exactly the points they contain, each once, row by row; for
/// ordered bounds there are `width * height` of them.
pub proof fn lemma_points2(b: Bounds2D)
    ensures
        forall|p: (i32, i32)| #[trigger] b.points().contains(p) <==> b.contains_spec(p),
        sorted2(b.points()),
        b.ordered() ==> b.points().len() == b.width_spec() * b.height_spec(),
{
    lemma_rows2(b.min.0 as int, b.max.0 as int, b.min.1 as int, b.max.1 as int);
    lemma_rows2_len(b.min.0 as int, b.max.0 as int, b.min.1 as int, b.max.1 as int);
    if b.ordered() {
        let (w, h) = (b.width_spec() as int, b.height_spec() as int);
        assert(w == b.max.0 - b.min.0 && h == b.max.1 - b.min.1);
        assert(h * w == w * h) by (nonlinear_arith);
    }
}

/// Two bounds are equal exactly when their minimum and their maximum are equal, every
/// coordinate of them.
pub proof fn lemma_eq2(a: Bounds2D, b: Bounds2D)
    ensures
        vstd::std_specs::cmp::PartialEqSpec::eq_spec(&a, &b) <==> (a.min.0 == b.min.0 && a.min.1 == b.min.1 && a.max.0 == b.max.0 && a.max.1 == b.max.1),
        vstd::std_specs::cmp::PartialEqSpec::eq_spec(&a, &b) <==> a == b,
{
}

/// A point lies in bounds exactly when, on every axis, it is at least the minimum and
/// below the maximum.
pub proof fn lemma_contains2(b: Bounds2D, p: (i32, i32))
    ensures
        b.contains_spec(p) <==> (b.min.0 <= p.0 && p.0 < b.max.0 && b.min.1 <= p.1 && p.1 < b.max.1),
{
}

/// Two bounds intersect exactly when, on every axis, each one's minimum is below the
/// other's maximum; when neither is empty, that is when they share a point.
pub proof fn lemma_intersects2(a: Bounds2D, b: Bounds2D)
    ensures
        a.intersects_spec(b) <==> (a.min.0 < b.max.0 && b.min.0 < a.max.0 && a.min.1 < b.max.1 && b.min.1 < a.max.1),
{
}

/// The size of ordered bounds along each axis is the maximum minus the minimum.
pub proof fn lemma_size2(b: Bounds2D)
    ensures
        b.min.0 <= b.max.0 ==> b.width_spec() == b.max.0 - b.min.0,
        b.min.1 <= b.max.1 ==> b.height_spec() == b.max.1 - b.min.1,
{
}

} // verus!
