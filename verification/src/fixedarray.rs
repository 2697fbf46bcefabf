use vstd::prelude::*;

verus! {

/// Whether `p` lies in the 2D region of the given size starting at `offset`.
pub open spec fn in_grid2(size: (u32, u32), offset: (i32, i32), p: (i32, i32)) -> bool {
    offset.0 <= p.0 < offset.0 + size.0 && offset.1 <= p.1 < offset.1 + size.1
}

/// The row-major index of `p` in the 2D region of the given size starting at `offset`.
pub open spec fn index2(size: (u32, u32), offset: (i32, i32), p: (i32, i32)) -> int {
    (p.1 - offset.1) * size.0 + (p.0 - offset.0)
}

/// Whether `p` lies in the 3D region of the given size starting at `offset`.
pub open spec fn in_grid3(size: (u32, u32, u32), offset: (i32, i32, i32), p: (i32, i32, i32)) -> bool {
    &&& offset.0 <= p.0 < offset.0 + size.0
    &&& offset.1 <= p.1 < offset.1 + size.1
    &&& offset.2 <= p.2 < offset.2 + size.2
}

/// The index of `p` in the 3D region of the given size starting at `offset`:
/// `x` varies fastest, then `z`, then `y`.
pub open spec fn index3(size: (u32, u32, u32), offset: (i32, i32, i32), p: (i32, i32, i32)) -> int {
    ((p.1 - offset.1) * size.2 + (p.2 - offset.2)) * size.0 + (p.0 - offset.0)
}

/// The position of the 2D region of the given size starting at `offset` whose row-major
/// index is `i`.
pub open spec fn position2(size: (u32, u32), offset: (i32, i32), i: int) -> (i32, i32) {
    ((offset.0 + i % (size.0 as int)) as i32, (offset.1 + i / (size.0 as int)) as i32)
}

/// The position of the 3D region of the given size starting at `offset` whose index is
/// `i` (`x` varies fastest, then `z`, then `y`).
pub open spec fn position3(size: (u32, u32, u32), offset: (i32, i32, i32), i: int) -> (i32, i32, i32) {
    let t = i / (size.0 as int);
    (
        (offset.0 + i % (size.0 as int)) as i32,
        (offset.1 + t / (size.2 as int)) as i32,
        (offset.2 + t % (size.2 as int)) as i32,
    )
}

/// Row-major indexing of a 2D region is a bijection onto `[0, width * height)`: every
/// index in range is the index of the position [position2] gives for it, and a
/// position's index gives the position back.
pub proof fn lemma_position2(size: (u32, u32), offset: (i32, i32), i: int, p: (i32, i32))
    requires
        offset.0 + size.0 <= i32::MAX,
        offset.1 + size.1 <= i32::MAX,
    ensures
        0 <= i < size.0 * size.1 ==> in_grid2(size, offset, position2(size, offset, i)) && index2(size, offset, position2(size, offset, i)) == i,
        in_grid2(size, offset, p) ==> position2(size, offset, index2(size, offset, p)) == p,
{
    let w = size.0 as int;
    let h = size.1 as int;
    if 0 <= i < size.0 * size.1 {
        assert(w > 0) by (nonlinear_arith)
            requires
                0 <= i < w * h,
                h >= 0,
        ;
        vstd::arithmetic::div_mod::lemma_fundamental_div_mod(i, w);
        vstd::arithmetic::div_mod::lemma_mod_pos_bound(i, w);
        let y = i / w;
        assert(0 <= y < h) by (nonlinear_arith)
            requires
                i == w * y + i % w,
                0 <= i % w < w,
                0 <= i < w * h,
                w > 0,
        ;
        assert(y * w == w * y) by (nonlinear_arith);
    }
    if in_grid2(size, offset, p) {
        let x = p.0 - offset.0;
        let y = p.1 - offset.1;
        vstd::arithmetic::div_mod::lemma_fundamental_div_mod_converse(y * w + x, w, y, x);
    }
}

/// Indexing of a 3D region is a bijection onto `[0, width * height * depth)`: every
/// index in range is the index of the position [position3] gives for it, and a
/// position's index gives the position back.
pub proof fn lemma_position3(size: (u32, u32, u32), offset: (i32, i32, i32), i: int, p: (i32, i32, i32))
    requires
        offset.0 + size.0 <= i32::MAX,
        offset.1 + size.1 <= i32::MAX,
        offset.2 + size.2 <= i32::MAX,
    ensures
        0 <= i < size.0 * size.1 * size.2 ==> in_grid3(size, offset, position3(size, offset, i)) && index3(size, offset, position3(size, offset, i)) == i,
        in_grid3(size, offset, p) ==> position3(size, offset, index3(size, offset, p)) == p,
{
    let w = size.0 as int;
    let h = size.1 as int;
    let d = size.2 as int;
    if 0 <= i < size.0 * size.1 * size.2 {
        assert(w > 0 && d > 0 && h > 0) by (nonlinear_arith)
            requires
                0 <= i < w * h * d,
                w >= 0,
                h >= 0,
                d >= 0,
        ;
        vstd::arithmetic::div_mod::lemma_fundamental_div_mod(i, w);
        vstd::arithmetic::div_mod::lemma_mod_pos_bound(i, w);
        let t = i / w;
        assert(0 <= t < h * d) by (nonlinear_arith)
            requires
                i == w * t + i % w,
                0 <= i % w < w,
                0 <= i < w * h * d,
                w > 0,
        ;
        vstd::arithmetic::div_mod::lemma_fundamental_div_mod(t, d);
        vstd::arithmetic::div_mod::lemma_mod_pos_bound(t, d);
        let y = t / d;
        assert(0 <= y < h) by (nonlinear_arith)
            requires
                t == d * y + t % d,
                0 <= t % d < d,
                0 <= t < h * d,
                d > 0,
        ;
        assert((y * d + t % d) * w + i % w == i) by (nonlinear_arith)
            requires
                t == d * y + t % d,
                i == w * t + i % w,
        ;
    }
    if in_grid3(size, offset, p) {
        let x = p.0 - offset.0;
        let y = p.1 - offset.1;
        let z = p.2 - offset.2;
        let t = y * d + z;
        vstd::arithmetic::div_mod::lemma_fundamental_div_mod_converse(t * w + x, w, t, x);
        vstd::arithmetic::div_mod::lemma_fundamental_div_mod_converse(t, d, y, z);
    }
}

/// Row-major indices of the points of a region are in range and distinct.
pub proof fn lemma_index2(size: (u32, u32), offset: (i32, i32), p: (i32, i32), q: (i32, i32))
    requires
        in_grid2(size, offset, p),
        in_grid2(size, offset, q),
    ensures
        0 <= index2(size, offset, p) < size.0 * size.1,
        index2(size, offset, p) == index2(size, offset, q) ==> p == q,
        (p.1 < q.1 || (p.1 == q.1 && p.0 < q.0)) ==> index2(size, offset, p) < index2(size, offset, q),
{
    lemma_row_major(
        size.0 as int,
        size.1 as int,
        p.0 - offset.0,
        p.1 - offset.1,
        q.0 - offset.0,
        q.1 - offset.1,
    );
}

/// The arithmetic behind row-major indexing.
pub proof fn lemma_row_major(w: int, h: int, x1: int, y1: int, x2: int, y2: int)
    requires
        0 <= x1 < w,
        0 <= y1 < h,
        0 <= x2 < w,
        0 <= y2 < h,
    ensures
        0 <= y1 * w + x1 < w * h,
        y1 * w + x1 == y2 * w + x2 ==> x1 == x2 && y1 == y2,
        (y1 < y2 || (y1 == y2 && x1 < x2)) ==> y1 * w + x1 < y2 * w + x2,
{
    assert(0 <= y1 * w + x1 < w * h) by (nonlinear_arith)
        requires
            0 <= x1 < w,
            0 <= y1 < h,
    ;
    if y1 < y2 {
        assert(y1 * w + x1 < y2 * w + x2) by (nonlinear_arith)
            requires
                0 <= x1 < w,
                0 <= x2,
                y1 < y2,
        ;
    } else if y2 < y1 {
        assert(y2 * w + x2 < y1 * w + x1) by (nonlinear_arith)
            requires
                0 <= x2 < w,
                0 <= x1,
                y2 < y1,
        ;
    }
}

/// Indices of the points of a 3D region are in range and distinct.
pub proof fn lemma_index3(size: (u32, u32, u32), offset: (i32, i32, i32), p: (i32, i32, i32), q: (i32, i32, i32))
    requires
        in_grid3(size, offset, p),
        in_grid3(size, offset, q),
    ensures
        0 <= index3(size, offset, p) < size.0 * size.1 * size.2,
        index3(size, offset, p) == index3(size, offset, q) ==> p == q,
        (p.1 < q.1 || (p.1 == q.1 && (p.2 < q.2 || (p.2 == q.2 && p.0 < q.0)))) ==> index3(size, offset, p) < index3(size, offset, q),
{
    let (w, h, d) = (size.0 as int, size.1 as int, size.2 as int);
    let (px, py, pz) = (p.0 - offset.0, p.1 - offset.1, p.2 - offset.2);
    let (qx, qy, qz) = (q.0 - offset.0, q.1 - offset.1, q.2 - offset.2);
    lemma_row_major(d, h, pz, py, qz, qy);
    lemma_row_major(d, h, qz, qy, pz, py);
    lemma_row_major(w, d * h, px, py * d + pz, qx, qy * d + qz);
    assert(w * (d * h) == w * h * d) by (nonlinear_arith);
}

/// An array of type `T`.
/// This is an abstraction over the memory meant to be used in rolling grid
/// implementations. The user manages the dimensionality and bounds of the [FixedArray].
#[derive(Default)]
pub struct FixedArray<T> {
    cells: Vec<Option<T>>,
}

impl<T> View for FixedArray<T> {
    type V = Seq<T>;

    closed spec fn view(&self) -> Seq<T> {
        self.cells@.map_values(|o: Option<T>| o->0)
    }
}

impl<T> FixedArray<T> {
    /// Every slot of the array holds a value.
    pub closed spec fn wf(&self) -> bool {
        forall|i: int| 0 <= i < self.cells@.len() ==> (#[trigger] self.cells@[i]) is Some
    }

    /// Allocate a new [FixedArray] from a 1D size and offset with an
    /// initialization function.
    ///
    /// `init` is called once for every position, also when `T` is zero-sized: a value of
    /// `T` is only ever made by `init`.
    pub fn new_1d<F: FnMut(i32) -> T>(size: u32, offset: i32, init: F) -> (r: Self)
        requires
            offset + size <= i32::MAX,
            forall|x: i32| call_requires(init, (x,)),
        ensures
            r.wf(),
            r@.len() == size,
            forall|i: int| 0 <= i < size ==> call_ensures(init, ((offset + i) as i32,), #[trigger] r@[i]),
    {
        let ghost init0 = init;
        let mut init = init;
        let mut cells: Vec<Option<T>> = Vec::new();
        let mut i: u32 = 0;
        while i < size
            invariant
                i <= size,
                offset + size <= i32::MAX,
                cells@.len() == i,
                init == init0,
                forall|x: i32| call_requires(init0, (x,)),
                forall|k: int| 0 <= k < i ==> (#[trigger] cells@[k]) is Some && call_ensures(init0, ((offset + k) as i32,), cells@[k]->0),
            decreases size - i,
        {
            let x = (offset as i64 + i as i64) as i32;
            let v = init(x);
            cells.push(Some(v));
            i = i + 1;
        }
        let r = Self { cells };
        assert forall|k: int| 0 <= k < size implies call_ensures(init, ((offset + k) as i32,), #[trigger] r@[k]) by {
            assert(r@[k] == cells@[k]->0);
        }
        r
    }

    /// Allocate a new [FixedArray] from a 2D size and offset with an
    /// initialization function.
    ///
    /// Initialization happens in the order `x -> y`, that your results will be ordered
    /// like so:
    /// * `(0, 0)`
    /// * `(1, 0)`
    /// * `(0, 1)`
    /// * `(1, 1)`
    ///
    /// `init` is called once for every position, also when `T` is zero-sized: a value of
    /// `T` is only ever made by `init`.
    pub fn new_2d<F: FnMut((i32, i32)) -> T>(size: (u32, u32), offset: (i32, i32), init: F) -> (r: Self)
        requires
            offset.0 + size.0 <= i32::MAX,
            offset.1 + size.1 <= i32::MAX,
            size.0 * size.1 > 0,
            size.0 * size.1 <= usize::MAX,
            forall|p: (i32, i32)| call_requires(init, (p,)),
        ensures
            r.wf(),
            r@.len() == size.0 * size.1,
            forall|p: (i32, i32)| in_grid2(size, offset, p) ==> call_ensures(init, (p,), #[trigger] r@[index2(size, offset, p)]),
    {
        let ghost init0 = init;
        let mut init = init;
        let mut cells: Vec<Option<T>> = Vec::new();
        let (w, h) = size;
        let (ox, oy) = offset;
        let mut y: i32 = oy;
        let y_end = (oy as i64 + h as i64) as i32;
        let x_end = (ox as i64 + w as i64) as i32;
        assert(w > 0) by (nonlinear_arith)
            requires
                w * h > 0,
                h >= 0,
        ;
        while y < y_end
            invariant
                y_end == oy + h,
                x_end == ox + w,
                oy <= y <= y_end,
                (size.0, size.1) == (w, h),
                offset == (ox, oy),
                w > 0,
                cells@.len() == (y - oy) * w,
                init == init0,
                forall|p: (i32, i32)| call_requires(init0, (p,)),
                forall|k: int| 0 <= k < cells@.len() ==> (#[trigger] cells@[k]) is Some,
                forall|p: (i32, i32)| in_grid2(size, offset, p) && p.1 < y ==> call_ensures(init0, (p,), #[trigger] cells@[index2(size, offset, p)]->0),
            decreases y_end - y,
        {
            let mut x: i32 = ox;
            while x < x_end
                invariant
                    y_end == oy + h,
                    x_end == ox + w,
                    oy <= y < y_end,
                    ox <= x <= x_end,
                    (size.0, size.1) == (w, h),
                    offset == (ox, oy),
                    cells@.len() == (y - oy) * w + (x - ox),
                    init == init0,
                    forall|p: (i32, i32)| call_requires(init0, (p,)),
                    forall|k: int| 0 <= k < cells@.len() ==> (#[trigger] cells@[k]) is Some,
                    forall|p: (i32, i32)| in_grid2(size, offset, p) && (p.1 < y || (p.1 == y && p.0 < x)) ==> call_ensures(init0, (p,), #[trigger] cells@[index2(size, offset, p)]->0),
                decreases x_end - x,
            {
                let v = init((x, y));
                let ghost before = cells@;
                cells.push(Some(v));
                proof {
                    assert forall|p: (i32, i32)| in_grid2(size, offset, p) && (p.1 < y || (p.1 == y && p.0 < x + 1)) implies call_ensures(init0, (p,), #[trigger] cells@[index2(size, offset, p)]->0) by {
                        lemma_index2(size, offset, p, (x, y));
                        if p != (x, y) {
                            assert(cells@[index2(size, offset, p)] == before[index2(size, offset, p)]);
                        }
                    }
                }
                x = x + 1;
            }
            assert((y - oy) * w + w == (y + 1 - oy) * w) by (nonlinear_arith);
            y = y + 1;
        }
        assert((y_end - oy) * w == w * h) by (nonlinear_arith)
            requires
                y_end - oy == h,
        ;
        let r = Self { cells };
        assert forall|p: (i32, i32)| in_grid2(size, offset, p) implies call_ensures(init, (p,), #[trigger] r@[index2(size, offset, p)]) by {
            lemma_index2(size, offset, p, p);
        }
        r
    }

    /// Attempt to allocate a new [FixedArray] from a 2D size and offset
    /// with an initialization function. Stops at the first error and returns it.
    ///
    /// Initialization happens in the order `x -> y`.
    ///
    /// `init` is called once for every position, also when `T` is zero-sized: a value of
    /// `T` is only ever made by `init`.
    pub fn try_new_2d<E, F: FnMut((i32, i32)) -> Result<T, E>>(size: (u32, u32), offset: (i32, i32), init: F) -> (r: Result<Self, E>)
        requires
            offset.0 + size.0 <= i32::MAX,
            offset.1 + size.1 <= i32::MAX,
            size.0 * size.1 > 0,
            size.0 * size.1 <= usize::MAX,
            forall|p: (i32, i32)| call_requires(init, (p,)),
        ensures
            r matches Ok(a) ==> {
                &&& a.wf()
                &&& a@.len() == size.0 * size.1
                &&& forall|p: (i32, i32)| in_grid2(size, offset, p) ==> call_ensures(init, (p,), Ok::<T, E>(#[trigger] a@[index2(size, offset, p)]))
            },
            r is Err ==> exists|p: (i32, i32)| in_grid2(size, offset, p) && #[trigger] call_ensures(init, (p,), Err::<T, E>(r->Err_0)) && forall|q: (i32, i32)|
                #![trigger in_grid2(size, offset, q)]
                in_grid2(size, offset, q) && (q.1 < p.1 || (q.1 == p.1 && q.0 < p.0)) ==> exists|v: T| #[trigger] call_ensures(init, (q,), Ok::<T, E>(v)),
    {
        let ghost init0 = init;
        let mut f = init;
        let mut cells: Vec<Option<T>> = Vec::new();
        let (w, h) = size;
        let (ox, oy) = offset;
        let mut y: i32 = oy;
        let y_end = (oy as i64 + h as i64) as i32;
        let x_end = (ox as i64 + w as i64) as i32;
        assert(w > 0) by (nonlinear_arith)
            requires
                w * h > 0,
                h >= 0,
        ;
        while y < y_end
            invariant
                y_end == oy + h,
                x_end == ox + w,
                oy <= y <= y_end,
                (size.0, size.1) == (w, h),
                offset == (ox, oy),
                w > 0,
                cells@.len() == (y - oy) * w,
                f == init0,
                init == init0,
                forall|p: (i32, i32)| call_requires(init0, (p,)),
                forall|k: int| 0 <= k < cells@.len() ==> (#[trigger] cells@[k]) is Some,
                forall|p: (i32, i32)| in_grid2(size, offset, p) && p.1 < y ==> call_ensures(init0, (p,), Ok::<T, E>(#[trigger] cells@[index2(size, offset, p)]->0)),
            decreases y_end - y,
        {
            let mut x: i32 = ox;
            while x < x_end
                invariant
                    y_end == oy + h,
                    x_end == ox + w,
                    oy <= y < y_end,
                    ox <= x <= x_end,
                    (size.0, size.1) == (w, h),
                    offset == (ox, oy),
                    cells@.len() == (y - oy) * w + (x - ox),
                    f == init0,
                    init == init0,
                init == init0,
                    forall|p: (i32, i32)| call_requires(init0, (p,)),
                    forall|k: int| 0 <= k < cells@.len() ==> (#[trigger] cells@[k]) is Some,
                    forall|p: (i32, i32)| in_grid2(size, offset, p) && (p.1 < y || (p.1 == y && p.0 < x)) ==> call_ensures(init0, (p,), Ok::<T, E>(#[trigger] cells@[index2(size, offset, p)]->0)),
                decreases x_end - x,
            {
                let res = f((x, y));
                let v = match res {
                    Ok(v) => v,
                    Err(e) => {
                        assert(in_grid2(size, offset, (x, y)) && call_ensures(init0, ((x, y),), Err::<T, E>(e)));
                        assert(call_ensures(init, ((x, y),), Err::<T, E>(e)));
                        assert forall|q: (i32, i32)| #![trigger in_grid2(size, offset, q)] in_grid2(size, offset, q) && (q.1 < y || (q.1 == y && q.0 < x)) implies exists|v: T| #[trigger] call_ensures(init, (q,), Ok::<T, E>(v)) by {
                            assert(call_ensures(init0, (q,), Ok::<T, E>(cells@[index2(size, offset, q)]->0)));
                        }
                        let r: Result<Self, E> = Err(e);
                        assert(call_ensures(init, ((x, y),), Err::<T, E>(r->Err_0)));
                        return r;
                    },
                };
                let ghost before = cells@;
                cells.push(Some(v));
                proof {
                    assert forall|p: (i32, i32)| in_grid2(size, offset, p) && (p.1 < y || (p.1 == y && p.0 < x + 1)) implies call_ensures(init0, (p,), Ok::<T, E>(#[trigger] cells@[index2(size, offset, p)]->0)) by {
                        lemma_index2(size, offset, p, (x, y));
                        if p != (x, y) {
                            assert(cells@[index2(size, offset, p)] == before[index2(size, offset, p)]);
                        }
                    }
                }
                x = x + 1;
            }
            assert((y - oy) * w + w == (y + 1 - oy) * w) by (nonlinear_arith);
            y = y + 1;
        }
        assert((y_end - oy) * w == w * h) by (nonlinear_arith)
            requires
                y_end - oy == h,
        ;
        let r = Self { cells };
        assert forall|p: (i32, i32)| in_grid2(size, offset, p) implies call_ensures(init, (p,), Ok::<T, E>(#[trigger] r@[index2(size, offset, p)])) by {
            lemma_index2(size, offset, p, p);
        }
        Ok(r)
    }

    /// Allocate a new [FixedArray] from a 3D size and offset with an
    /// initialization function.
    ///
    /// Initialization happens in the order `x -> z -> y`, that your results
    /// will be ordered like so:
    /// * `(0, 0, 0)`
    /// * `(1, 0, 0)`
    /// * `(0, 0, 1)`
    /// * `(1, 0, 1)`
    /// * `(0, 1, 0)`
    /// * `(1, 1, 0)`
    /// * `(0, 1, 1)`
    /// * `(1, 1, 1)`
    ///
    /// `init` is called once for every position, also when `T` is zero-sized: a value of
    /// `T` is only ever made by `init`.
    pub fn new_3d<F: FnMut((i32, i32, i32)) -> T>(size: (u32, u32, u32), offset: (i32, i32, i32), init: F) -> (r: Self)
        requires
            offset.0 + size.0 <= i32::MAX,
            offset.1 + size.1 <= i32::MAX,
            offset.2 + size.2 <= i32::MAX,
            size.0 * size.1 * size.2 > 0,
            size.0 * size.1 * size.2 <= usize::MAX,
            forall|p: (i32, i32, i32)| call_requires(init, (p,)),
        ensures
            r.wf(),
            r@.len() == size.0 * size.1 * size.2,
            forall|p: (i32, i32, i32)| in_grid3(size, offset, p) ==> call_ensures(init, (p,), #[trigger] r@[index3(size, offset, p)]),
    {
        let ghost init0 = init;
        let mut f = init;
        let mut cells: Vec<Option<T>> = Vec::new();
        let (w, h, d) = size;
        let (ox, oy, oz) = offset;
        let y_end = (oy as i64 + h as i64) as i32;
        let z_end = (oz as i64 + d as i64) as i32;
        let x_end = (ox as i64 + w as i64) as i32;
        assert(w > 0 && d > 0 && h > 0) by (nonlinear_arith)
            requires
                w * h * d > 0,
                h >= 0,
                w >= 0,
                d >= 0,
        ;
        let mut y: i32 = oy;
        assert((y - oy) * d * w == 0) by (nonlinear_arith)
            requires
                y == oy,
        ;
        while y < y_end
            invariant
                y_end == oy + h,
                z_end == oz + d,
                x_end == ox + w,
                oy <= y <= y_end,
                (size.0, size.1, size.2) == (w, h, d),
                offset == (ox, oy, oz),
                w > 0,
                d > 0,
                cells@.len() == (y - oy) * d * w,
                f == init0,
                init == init0,
                forall|p: (i32, i32, i32)| call_requires(init0, (p,)),
                forall|k: int| 0 <= k < cells@.len() ==> (#[trigger] cells@[k]) is Some,
                forall|p: (i32, i32, i32)| in_grid3(size, offset, p) && p.1 < y ==> call_ensures(init0, (p,), #[trigger] cells@[index3(size, offset, p)]->0),
            decreases y_end - y,
        {
            let mut z: i32 = oz;
            assert(((y - oy) * d + (z - oz)) * w == (y - oy) * d * w) by (nonlinear_arith)
                requires
                    z == oz,
            ;
            while z < z_end
                invariant
                    y_end == oy + h,
                    z_end == oz + d,
                    x_end == ox + w,
                    oy <= y < y_end,
                    oz <= z <= z_end,
                    (size.0, size.1, size.2) == (w, h, d),
                    offset == (ox, oy, oz),
                    w > 0,
                    d > 0,
                    cells@.len() == ((y - oy) * d + (z - oz)) * w,
                    f == init0,
                    init == init0,
                    forall|p: (i32, i32, i32)| call_requires(init0, (p,)),
                    forall|k: int| 0 <= k < cells@.len() ==> (#[trigger] cells@[k]) is Some,
                    forall|p: (i32, i32, i32)| in_grid3(size, offset, p) && (p.1 < y || (p.1 == y && p.2 < z)) ==> call_ensures(init0, (p,), #[trigger] cells@[index3(size, offset, p)]->0),
                decreases z_end - z,
            {
                let mut x: i32 = ox;
                while x < x_end
                    invariant
                        y_end == oy + h,
                        z_end == oz + d,
                        x_end == ox + w,
                        oy <= y < y_end,
                        oz <= z < z_end,
                        ox <= x <= x_end,
                        (size.0, size.1, size.2) == (w, h, d),
                        offset == (ox, oy, oz),
                        cells@.len() == ((y - oy) * d + (z - oz)) * w + (x - ox),
                        f == init0,
                        init == init0,
                        forall|p: (i32, i32, i32)| call_requires(init0, (p,)),
                        forall|k: int| 0 <= k < cells@.len() ==> (#[trigger] cells@[k]) is Some,
                        forall|p: (i32, i32, i32)| in_grid3(size, offset, p) && (p.1 < y || (p.1 == y && (p.2 < z || (p.2 == z && p.0 < x)))) ==> call_ensures(init0, (p,), #[trigger] cells@[index3(size, offset, p)]->0),
                    decreases x_end - x,
                {
                    let v = f((x, y, z));
                    let ghost before = cells@;
                    cells.push(Some(v));
                    proof {
                        assert forall|p: (i32, i32, i32)| in_grid3(size, offset, p) && (p.1 < y || (p.1 == y && (p.2 < z || (p.2 == z && p.0 < x + 1)))) implies call_ensures(init0, (p,), #[trigger] cells@[index3(size, offset, p)]->0) by {
                            lemma_index3(size, offset, p, (x, y, z));
                            if p != (x, y, z) {
                                assert(cells@[index3(size, offset, p)] == before[index3(size, offset, p)]);
                            }
                        }
                    }
                    x = x + 1;
                }
                assert(((y - oy) * d + (z - oz)) * w + w == ((y - oy) * d + (z + 1 - oz)) * w) by (nonlinear_arith);
                z = z + 1;
            }
            assert(((y - oy) * d + d) * w == (y + 1 - oy) * d * w) by (nonlinear_arith);
            y = y + 1;
        }
        assert((y_end - oy) * d * w == w * h * d) by (nonlinear_arith)
            requires
                y_end - oy == h,
        ;
        let r = Self { cells };
        assert forall|p: (i32, i32, i32)| in_grid3(size, offset, p) implies call_ensures(init, (p,), #[trigger] r@[index3(size, offset, p)]) by {
            lemma_index3(size, offset, p, p);
        }
        r
    }

    /// Attempt to allocate a new [FixedArray] from a 3D size and offset
    /// with an initialization function. Stops at the first error and returns it.
    ///
    /// Initialization happens in the order `x -> z -> y`, that your results
    /// will be ordered like so:
    /// * `(0, 0, 0)`
    /// * `(1, 0, 0)`
    /// * `(0, 0, 1)`
    /// * `(1, 0, 1)`
    /// * `(0, 1, 0)`
    /// * `(1, 1, 0)`
    /// * `(0, 1, 1)`
    /// * `(1, 1, 1)`
    ///
    /// `init` is called once for every position, also when `T` is zero-sized: a value of
    /// `T` is only ever made by `init`.
    pub fn try_new_3d<E, F: FnMut((i32, i32, i32)) -> Result<T, E>>(size: (u32, u32, u32), offset: (i32, i32, i32), init: F) -> (r: Result<Self, E>)
        requires
            offset.0 + size.0 <= i32::MAX,
            offset.1 + size.1 <= i32::MAX,
            offset.2 + size.2 <= i32::MAX,
            size.0 * size.1 * size.2 > 0,
            size.0 * size.1 * size.2 <= usize::MAX,
            forall|p: (i32, i32, i32)| call_requires(init, (p,)),
        ensures
            r matches Ok(a) ==> {
                &&& a.wf()
                &&& a@.len() == size.0 * size.1 * size.2
                &&& forall|p: (i32, i32, i32)| in_grid3(size, offset, p) ==> call_ensures(init, (p,), Ok::<T, E>(#[trigger] a@[index3(size, offset, p)]))
            },
            r is Err ==> exists|p: (i32, i32, i32)| in_grid3(size, offset, p) && #[trigger] call_ensures(init, (p,), Err::<T, E>(r->Err_0)) && forall|q: (i32, i32, i32)|
                #![trigger in_grid3(size, offset, q)]
                in_grid3(size, offset, q) && (q.1 < p.1 || (q.1 == p.1 && (q.2 < p.2 || (q.2 == p.2 && q.0 < p.0)))) ==> exists|v: T| #[trigger] call_ensures(init, (q,), Ok::<T, E>(v)),
    {
        let ghost init0 = init;
        let mut f = init;
        let mut cells: Vec<Option<T>> = Vec::new();
        let (w, h, d) = size;
        let (ox, oy, oz) = offset;
        let y_end = (oy as i64 + h as i64) as i32;
        let z_end = (oz as i64 + d as i64) as i32;
        let x_end = (ox as i64 + w as i64) as i32;
        assert(w > 0 && d > 0 && h > 0) by (nonlinear_arith)
            requires
                w * h * d > 0,
                h >= 0,
                w >= 0,
                d >= 0,
        ;
        let mut y: i32 = oy;
        assert((y - oy) * d * w == 0) by (nonlinear_arith)
            requires
                y == oy,
        ;
        while y < y_end
            invariant
                y_end == oy + h,
                z_end == oz + d,
                x_end == ox + w,
                oy <= y <= y_end,
                (size.0, size.1, size.2) == (w, h, d),
                offset == (ox, oy, oz),
                w > 0,
                d > 0,
                cells@.len() == (y - oy) * d * w,
                f == init0,
                init == init0,
                forall|p: (i32, i32, i32)| call_requires(init0, (p,)),
                forall|k: int| 0 <= k < cells@.len() ==> (#[trigger] cells@[k]) is Some,
                forall|p: (i32, i32, i32)| in_grid3(size, offset, p) && p.1 < y ==> call_ensures(init0, (p,), Ok::<T, E>(#[trigger] cells@[index3(size, offset, p)]->0)),
            decreases y_end - y,
        {
            let mut z: i32 = oz;
            assert(((y - oy) * d + (z - oz)) * w == (y - oy) * d * w) by (nonlinear_arith)
                requires
                    z == oz,
            ;
            while z < z_end
                invariant
                    y_end == oy + h,
                    z_end == oz + d,
                    x_end == ox + w,
                    oy <= y < y_end,
                    oz <= z <= z_end,
                    (size.0, size.1, size.2) == (w, h, d),
                    offset == (ox, oy, oz),
                    w > 0,
                    d > 0,
                    cells@.len() == ((y - oy) * d + (z - oz)) * w,
                    f == init0,
                    init == init0,
                    forall|p: (i32, i32, i32)| call_requires(init0, (p,)),
                    forall|k: int| 0 <= k < cells@.len() ==> (#[trigger] cells@[k]) is Some,
                    forall|p: (i32, i32, i32)| in_grid3(size, offset, p) && (p.1 < y || (p.1 == y && p.2 < z)) ==> call_ensures(init0, (p,), Ok::<T, E>(#[trigger] cells@[index3(size, offset, p)]->0)),
                decreases z_end - z,
            {
                let mut x: i32 = ox;
                while x < x_end
                    invariant
                        y_end == oy + h,
                        z_end == oz + d,
                        x_end == ox + w,
                        oy <= y < y_end,
                        oz <= z < z_end,
                        ox <= x <= x_end,
                        (size.0, size.1, size.2) == (w, h, d),
                        offset == (ox, oy, oz),
                        cells@.len() == ((y - oy) * d + (z - oz)) * w + (x - ox),
                        f == init0,
                        init == init0,
                        forall|p: (i32, i32, i32)| call_requires(init0, (p,)),
                        forall|k: int| 0 <= k < cells@.len() ==> (#[trigger] cells@[k]) is Some,
                        forall|p: (i32, i32, i32)| in_grid3(size, offset, p) && (p.1 < y || (p.1 == y && (p.2 < z || (p.2 == z && p.0 < x)))) ==> call_ensures(init0, (p,), Ok::<T, E>(#[trigger] cells@[index3(size, offset, p)]->0)),
                    decreases x_end - x,
                {
                    let res = f((x, y, z));
                    let v = match res {
                        Ok(v) => v,
                        Err(e) => {
                            assert(in_grid3(size, offset, (x, y, z)) && call_ensures(init, ((x, y, z),), Err::<T, E>(e)));
                            assert forall|q: (i32, i32, i32)| #![trigger in_grid3(size, offset, q)] in_grid3(size, offset, q) && (q.1 < y || (q.1 == y && (q.2 < z || (q.2 == z && q.0 < x)))) implies exists|v: T| #[trigger] call_ensures(init, (q,), Ok::<T, E>(v)) by {
                                assert(call_ensures(init0, (q,), Ok::<T, E>(cells@[index3(size, offset, q)]->0)));
                            }
                            let r: Result<Self, E> = Err(e);
                            assert(call_ensures(init, ((x, y, z),), Err::<T, E>(r->Err_0)));
                            return r;
                        },
                    };
                    let ghost before = cells@;
                    cells.push(Some(v));
                    proof {
                        assert forall|p: (i32, i32, i32)| in_grid3(size, offset, p) && (p.1 < y || (p.1 == y && (p.2 < z || (p.2 == z && p.0 < x + 1)))) implies call_ensures(init0, (p,), Ok::<T, E>(#[trigger] cells@[index3(size, offset, p)]->0)) by {
                            lemma_index3(size, offset, p, (x, y, z));
                            if p != (x, y, z) {
                                assert(cells@[index3(size, offset, p)] == before[index3(size, offset, p)]);
                            }
                        }
                    }
                    x = x + 1;
                }
                assert(((y - oy) * d + (z - oz)) * w + w == ((y - oy) * d + (z + 1 - oz)) * w) by (nonlinear_arith);
                z = z + 1;
            }
            assert(((y - oy) * d + d) * w == (y + 1 - oy) * d * w) by (nonlinear_arith);
            y = y + 1;
        }
        assert((y_end - oy) * d * w == w * h * d) by (nonlinear_arith)
            requires
                y_end - oy == h,
        ;
        let r = Self { cells };
        assert forall|p: (i32, i32, i32)| in_grid3(size, offset, p) implies call_ensures(init, (p,), Ok::<T, E>(#[trigger] r@[index3(size, offset, p)])) by {
            lemma_index3(size, offset, p, p);
        }
        Ok(r)
    }

    /// Gets the length of the array.
    pub fn len(&self) -> (r: usize)
        ensures
            r == self@.len(),
    {
        self.cells.len()
    }

    /// A reference to the value at `index`.
    pub fn get(&self, index: usize) -> (r: &T)
        requires
            self.wf(),
            index < self@.len(),
        ensures
            *r == self@[index as int],
    {
        match &self.cells[index] {
            Some(v) => v,
            None => {
                assert(self.cells@[index as int] is Some);
                vstd::pervasive::unreached()
            },
        }
    }

    /// A mutable reference to the value at `index`.
    pub fn get_mut(&mut self, index: usize) -> (r: &mut T)
        requires
            old(self).wf(),
            index < old(self)@.len(),
        ensures
            *r == old(self)@[index as int],
            final(self).wf(),
            final(self)@ == old(self)@.update(index as int, *final(r)),
            forall|i: int| 0 <= i < old(self)@.len() && i != index ==> #[trigger] final(self)@[i] == old(self)@[i],
    {
        let ghost c0 = self.cells@;
        assert(self.cells@[index as int] is Some);
        let slot = &mut self.cells[index];
        match slot {
            Some(v) => v,
            None => vstd::pervasive::unreached(),
        }
    }

    /// Replace item at `index` using [std::mem::replace], returns the old value.
    pub fn replace(&mut self, index: usize, value: T) -> (r: T)
        requires
            old(self).wf(),
            index < old(self)@.len(),
        ensures
            r == old(self)@[index as int],
            final(self).wf(),
            final(self)@ == old(self)@.update(index as int, value),
    {
        let old_value = self.cells[index].take();
        self.cells.set(index, Some(value));
        proof {
            assert(self@ =~= old(self)@.update(index as int, value));
        }
        match old_value {
            Some(v) => v,
            None => vstd::pervasive::unreached(),
        }
    }
    /// Replace item at `index` using `replace` function that takes as input the old value and returns the new value.
    /// This will swap the value in-place.
    pub fn replace_with<F: FnOnce(T) -> T>(&mut self, index: usize, replace: F)
        requires
            old(self).wf(),
            index < old(self)@.len(),
            call_requires(replace, (old(self)@[index as int],)),
        ensures
            final(self).wf(),
            final(self)@.len() == old(self)@.len(),
            call_ensures(replace, (old(self)@[index as int],), final(self)@[index as int]),
            forall|i: int| 0 <= i < old(self)@.len() && i != index ==> final(self)@[i] == old(self)@[i],
    {
        let old_value = self.cells[index].take();
        let v = match old_value {
            Some(v) => v,
            None => vstd::pervasive::unreached(),
        };
        let new_value = replace(v);
        self.cells.set(index, Some(new_value));
    }

    /// The slots of the array, each holding its value.
    pub(crate) fn into_slots(self) -> (r: Vec<Option<T>>)
        requires
            self.wf(),
        ensures
            r@.len() == self@.len(),
            forall|i: int| 0 <= i < r@.len() ==> #[trigger] r@[i] == Some(self@[i]),
    {
        self.cells
    }

    /// Converts the array into a `Vec<T>`.
    pub fn into_vec(self) -> (r: Vec<T>)
        requires
            self.wf(),
        ensures
            r@ == self@,
    {
        let ghost s = self@;
        let mut cells = self.cells;
        let mut rev: Vec<T> = Vec::new();
        while cells.len() > 0
            invariant
                cells@.len() + rev@.len() == s.len(),
                forall|k: int| 0 <= k < cells@.len() ==> (#[trigger] cells@[k]) is Some && cells@[k]->0 == s[k],
                forall|k: int| 0 <= k < rev@.len() ==> #[trigger] rev@[k] == s[s.len() - 1 - k],
            decreases cells@.len(),
        {
            let last = cells.pop();
            match last {
                Some(Some(v)) => rev.push(v),
                _ => vstd::pervasive::unreached(),
            }
        }
        let mut out: Vec<T> = Vec::new();
        while rev.len() > 0
            invariant
                out@.len() + rev@.len() == s.len(),
                forall|k: int| 0 <= k < rev@.len() ==> #[trigger] rev@[k] == s[s.len() - 1 - k],
                forall|k: int| 0 <= k < out@.len() ==> #[trigger] out@[k] == s[k],
            decreases rev@.len(),
        {
            let v = rev.pop();
            match v {
                Some(v) => out.push(v),
                None => vstd::pervasive::unreached(),
            }
        }
        assert(out@ =~= s);
        out
    }

    /// Creates an iterator over elements by reference in the array.
    pub fn iter(&self) -> (r: FixedArrayRefIterator<'_, T>)
        requires
            self.wf(),
        ensures
            r.array() == self,
            r.index() == 0,
    {
        FixedArrayRefIterator { array: self, index: 0 }
    }

    /// Creates an iterator that moves the elements out of the array, in order.
    pub fn into_iter(self) -> (r: FixedArrayIterator<T>)
        requires
            self.wf(),
        ensures
            r.wf(),
            r.remaining() == self@,
    {
        let r = FixedArrayIterator { cells: self.cells, index: 0 };
        assert(r.remaining() =~= self@);
        r
    }
}

impl<T: Default> FixedArray<T> {
    /// Takes the value at `index` while replacing the old value with [Default::default()].
    pub fn take(&mut self, index: usize) -> (r: T)
        requires
            old(self).wf(),
            index < old(self)@.len(),
        ensures
            r == old(self)@[index as int],
            final(self).wf(),
            final(self)@.len() == old(self)@.len(),
            forall|i: int| 0 <= i < old(self)@.len() && i != index ==> final(self)@[i] == old(self)@[i],
            call_ensures(T::default, (), final(self)@[index as int]),
    {
        let d = T::default();
        self.replace(index, d)
    }
}

/// Clones each slot: an empty slot stays empty, a value is cloned.
pub(crate) fn clone_slots<T: Clone>(cells: &Vec<Option<T>>) -> (r: Vec<Option<T>>)
    ensures
        r@.len() == cells@.len(),
        forall|k: int| 0 <= k < cells@.len() ==> ((#[trigger] r@[k]) is Some <==> cells@[k] is Some),
        forall|k: int| 0 <= k < cells@.len() && cells@[k] is Some ==> cloned::<T>(cells@[k]->0, #[trigger] r@[k]->0),
{
    let mut out: Vec<Option<T>> = Vec::new();
    let mut i: usize = 0;
    while i < cells.len()
        invariant
            i <= cells@.len(),
            out@.len() == i,
            forall|k: int| 0 <= k < i ==> ((#[trigger] out@[k]) is Some <==> cells@[k] is Some),
            forall|k: int| 0 <= k < i && cells@[k] is Some ==> cloned::<T>(cells@[k]->0, #[trigger] out@[k]->0),
        decreases cells@.len() - i,
    {
        match &cells[i] {
            Some(v) => out.push(Some(v.clone())),
            None => out.push(None),
        }
        i = i + 1;
    }
    out
}

impl<T: Clone> Clone for FixedArray<T> {
    /// Clones every element.
    fn clone(&self) -> (r: Self)
        ensures
            self.wf() ==> r.wf(),
            r@.len() == self@.len(),
            self.wf() ==> forall|i: int| 0 <= i < self@.len() ==> cloned::<T>(self@[i], #[trigger] r@[i]),
    {
        FixedArray { cells: clone_slots(&self.cells) }
    }
}

/// An iterator over the elements of a [FixedArray] by reference.
pub struct FixedArrayRefIterator<'a, T> {
    array: &'a FixedArray<T>,
    index: usize,
}

impl<'a, T> FixedArrayRefIterator<'a, T> {
    /// The array being iterated.
    pub closed spec fn array(self) -> &'a FixedArray<T> {
        self.array
    }

    /// The index of the next element to be returned.
    pub closed spec fn index(self) -> usize {
        self.index
    }

    /// The number of elements still to be returned, as a lower and an upper bound.
    pub fn size_hint(&self) -> (r: (usize, Option<usize>))
        requires
            self.index() <= self.array()@.len(),
        ensures
            r == ((self.array()@.len() - self.index()) as usize, Some((self.array()@.len() - self.index()) as usize)),
    {
        let n = self.array.len() - self.index;
        (n, Some(n))
    }

    /// Returns the next element, or `None` once every element has been returned.
    pub fn next(&mut self) -> (r: Option<&'a T>)
        requires
            old(self).array().wf(),
            old(self).index() <= old(self).array()@.len(),
        ensures
            final(self).array() == old(self).array(),
            old(self).index() == old(self).array()@.len() ==> r is None && final(self).index() == old(self).index(),
            old(self).index() < old(self).array()@.len() ==> r == Some(&old(self).array()@[old(self).index() as int])
                && final(self).index() == old(self).index() + 1,
    {
        if self.index == self.array.len() {
            return None;
        }
        let result = self.array.get(self.index);
        self.index = self.index + 1;
        Some(result)
    }
}

/// An iterator that moves the elements out of a [FixedArray], in order.
pub struct FixedArrayIterator<T> {
    cells: Vec<Option<T>>,
    index: usize,
}

impl<T> FixedArrayIterator<T> {
    /// The iterator's internal invariant: every element not yet returned is present.
    pub closed spec fn wf(self) -> bool {
        &&& self.index <= self.cells@.len()
        &&& forall|i: int| self.index <= i < self.cells@.len() ==> (#[trigger] self.cells@[i]) is Some
    }

    /// The elements still to be returned, in order.
    pub closed spec fn remaining(self) -> Seq<T> {
        self.cells@.subrange(self.index as int, self.cells@.len() as int).map_values(|o: Option<T>| o->0)
    }

    /// Returns the next element, or `None` once every element has been returned.
    pub fn next(&mut self) -> (r: Option<T>)
        requires
            old(self).wf(),
        ensures
            final(self).wf(),
            old(self).remaining().len() == 0 ==> r is None && final(self).remaining() == old(self).remaining(),
            old(self).remaining().len() > 0 ==> r == Some(old(self).remaining()[0])
                && final(self).remaining() == old(self).remaining().drop_first(),
    {
        if self.index == self.cells.len() {
            return None;
        }
        let i = self.index;
        let v = self.cells[i].take();
        self.index = i + 1;
        proof {
            assert(self.remaining() =~= old(self).remaining().drop_first());
        }
        v
    }
}

} // verus!
