//! Rolling grids: fixed-size 2D and 3D grids that can be moved across an unbounded
//! coordinate space while only the cells that change position are reloaded.

use std::marker::PhantomData;
use vstd::prelude::*;

pub mod bounds2d;
pub mod bounds3d;
pub mod fixedarray;
pub mod grid2d;
pub mod grid3d;
pub mod math;
pub mod rollgrid2d;
pub mod rollgrid3d;

verus! {

/// A trait for managing cells during resize operations on grids.
///
/// You can easily create a [CellManager] to use as a [CellManage].
///
/// The spec functions describe an implementation: which calls it accepts, and what each
/// call may give back and leave the manager as. An implementation that says nothing of
/// them keeps the defaults, which accept every call and promise nothing of its outcome.
pub trait CellManage<C, T>: Sized {
    /// Whether this manager accepts every call of `load`, `unload` and `reload`.
    open spec fn ready(&self) -> bool {
        true
    }

    /// Whether a call of `load` for `position` may give `value` and leave the manager as
    /// `next`.
    open spec fn loads(&self, position: C, value: T, next: Self) -> bool {
        true
    }

    /// Whether a call of `unload` for `position` with `value` may leave the manager as
    /// `next`.
    open spec fn unloads(&self, position: C, value: T, next: Self) -> bool {
        true
    }

    /// Whether a call of `reload` may leave `after` in a cell that held `before`, when the
    /// cell moves from `old_position` to `new_position`, and leave the manager as `next`.
    open spec fn reloads(&self, old_position: C, new_position: C, before: T, after: T, next: Self) -> bool {
        true
    }

    /// Loads the cell for `position`, which has just entered the grid.
    fn load(&mut self, position: C) -> (value: T)
        requires
            old(self).ready(),
        ensures
            final(self).ready(),
            old(self).loads(position, value, *final(self)),
    ;

    /// Unloads the value of the cell at `position`, which has just left the grid.
    fn unload(&mut self, position: C, old_value: T)
        requires
            old(self).ready(),
        ensures
            final(self).ready(),
            old(self).unloads(position, old_value, *final(self)),
    ;

    /// Reloads a cell that held `old_position` and now holds `new_position`.
    fn reload(&mut self, old_position: C, new_position: C, value: &mut T)
        requires
            old(self).ready(),
        ensures
            final(self).ready(),
            old(self).reloads(old_position, new_position, *old(value), *final(value), *final(self)),
    ;
}

/// A trait for managing cells during fallible resize operations on grids.
///
/// The spec functions describe an implementation as for [CellManage], with the result
/// of each call.
pub trait TryCellManage<C, T, E>: Sized {
    /// Whether this manager accepts every call of `try_load`, `try_unload` and `try_reload`.
    open spec fn try_ready(&self) -> bool {
        true
    }

    /// Whether a call of `try_load` for `position` may give `result` and leave the manager
    /// as `next`.
    open spec fn try_loads(&self, position: C, result: Result<T, E>, next: Self) -> bool {
        true
    }

    /// Whether a call of `try_unload` for `position` with `value` may give `result` and
    /// leave the manager as `next`.
    open spec fn try_unloads(&self, position: C, value: T, result: Result<(), E>, next: Self) -> bool {
        true
    }

    /// Whether a call of `try_reload` may leave `after` in a cell that held `before`, when
    /// the cell moves from `old_position` to `new_position`, give `result` and leave the
    /// manager as `next`.
    open spec fn try_reloads(&self, old_position: C, new_position: C, before: T, after: T, result: Result<(), E>, next: Self) -> bool {
        true
    }

    /// Loads the cell for `position`, which has just entered the grid.
    fn try_load(&mut self, position: C) -> (result: Result<T, E>)
        requires
            old(self).try_ready(),
        ensures
            final(self).try_ready(),
            old(self).try_loads(position, result, *final(self)),
    ;

    /// Unloads the value of the cell at `position`, which has just left the grid.
    fn try_unload(&mut self, position: C, old_value: T) -> (result: Result<(), E>)
        requires
            old(self).try_ready(),
        ensures
            final(self).try_ready(),
            old(self).try_unloads(position, old_value, result, *final(self)),
    ;

    /// Reloads a cell that held `old_position` and now holds `new_position`.
    fn try_reload(&mut self, old_position: C, new_position: C, value: &mut T) -> (result: Result<(), E>)
        requires
            old(self).try_ready(),
        ensures
            final(self).try_ready(),
            old(self).try_reloads(old_position, new_position, *old(value), *final(value), result, *final(self)),
    ;
}

/// A call made on a cell manager, with what it was handed and what it gave back or
/// left: `Load(position, value)`, `Unload(position, value)`,
/// `Reload(old_position, new_position, before, after)`.
pub enum ManagerCall<C, T> {
    Load(C, T),
    Unload(C, T),
    Reload(C, C, T, T),
}

/// Whether `call` may be made on the manager `m` and leave it as `next`; `None` stands
/// for no call, which leaves the manager as it is.
pub open spec fn manager_step<C, T, M: CellManage<C, T>>(m: M, call: Option<ManagerCall<C, T>>, next: M) -> bool {
    match call {
        None => next == m,
        Some(ManagerCall::Load(p, v)) => m.loads(p, v, next),
        Some(ManagerCall::Unload(p, v)) => m.unloads(p, v, next),
        Some(ManagerCall::Reload(o, n, b, a)) => m.reloads(o, n, b, a, next),
    }
}

/// Whether the manager `m` may make `calls` one after the other, each on the state the
/// previous one left.
pub open spec fn manager_runs<C, T, M: CellManage<C, T>>(m: M, calls: Seq<Option<ManagerCall<C, T>>>) -> bool {
    exists|states: Seq<M>|
        states.len() == calls.len() + 1 && states[0] == m && forall|i: int| 0 <= i < calls.len() ==> manager_step(states[i], #[trigger] calls[i], states[i + 1])
}

/// Whether a call of `try_unload` on `m` may succeed and leave it as `next`.
pub open spec fn try_unload_succeeds<C, T, E, M: TryCellManage<C, T, E>>(m: M, position: C, value: T, next: M) -> bool {
    exists|r: Result<(), E>| #[trigger] m.try_unloads(position, value, r, next) && r is Ok
}

/// Whether a call of `try_reload` on `m` may succeed, leaving `after` in a cell that held
/// `before`, and leave the manager as `next`.
pub open spec fn try_reload_succeeds<C, T, E, M: TryCellManage<C, T, E>>(m: M, old_position: C, new_position: C, before: T, after: T, next: M) -> bool {
    exists|r: Result<(), E>| #[trigger] m.try_reloads(old_position, new_position, before, after, r, next) && r is Ok
}

/// Whether `call` may be made on the fallible manager `m`, succeed, and leave it as
/// `next`; `None` stands for no call, which leaves the manager as it is.
pub open spec fn try_manager_step<C, T, E, M: TryCellManage<C, T, E>>(m: M, call: Option<ManagerCall<C, T>>, next: M) -> bool {
    match call {
        None => next == m,
        Some(ManagerCall::Load(p, v)) => m.try_loads(p, Ok(v), next),
        Some(ManagerCall::Unload(p, v)) => try_unload_succeeds::<C, T, E, M>(m, p, v, next),
        Some(ManagerCall::Reload(o, n, b, a)) => try_reload_succeeds::<C, T, E, M>(m, o, n, b, a, next),
    }
}

/// Whether the fallible manager `m` may make `calls` one after the other, each on the
/// state the previous one left, and each succeed.
pub open spec fn try_manager_runs<C, T, E, M: TryCellManage<C, T, E>>(m: M, calls: Seq<Option<ManagerCall<C, T>>>) -> bool {
    exists|states: Seq<M>|
        states.len() == calls.len() + 1 && states[0] == m && forall|i: int| 0 <= i < calls.len() ==> try_manager_step::<C, T, E, M>(states[i], #[trigger] calls[i], states[i + 1])
}

/// A successful `try_reload` is a successful step of a run.
pub proof fn lemma_try_reload_step<C, T, E, M: TryCellManage<C, T, E>>(m: M, o: C, n: C, before: T, after: T, result: Result<(), E>, next: M)
    requires
        m.try_reloads(o, n, before, after, result, next),
        result is Ok,
    ensures
        try_manager_step::<C, T, E, M>(m, Some(ManagerCall::Reload(o, n, before, after)), next),
{
}

/// A successful `try_unload` is a successful step of a run.
pub proof fn lemma_try_unload_step<C, T, E, M: TryCellManage<C, T, E>>(m: M, p: C, value: T, result: Result<(), E>, next: M)
    requires
        m.try_unloads(p, value, result, next),
        result is Ok,
    ensures
        try_manager_step::<C, T, E, M>(m, Some(ManagerCall::Unload(p, value)), next),
{
}

/// Whether `call` may be made on the fallible manager `m`, fail with `e`, and leave it as
/// `next`. A failed `try_load` is recorded as a `Load` whose value is not looked at.
pub open spec fn try_manager_failure<C, T, E, M: TryCellManage<C, T, E>>(m: M, call: ManagerCall<C, T>, e: E, next: M) -> bool {
    match call {
        ManagerCall::Load(p, v) => m.try_loads(p, Err(e), next),
        ManagerCall::Unload(p, v) => m.try_unloads(p, v, Err(e), next),
        ManagerCall::Reload(o, n, b, a) => m.try_reloads(o, n, b, a, Err(e), next),
    }
}

/// Whether the fallible manager `m` may make `calls` one after the other, each
/// succeeding, and then `call`, which fails with `e`.
pub open spec fn try_manager_stops<C, T, E, M: TryCellManage<C, T, E>>(m: M, calls: Seq<Option<ManagerCall<C, T>>>, call: ManagerCall<C, T>, e: E) -> bool {
    exists|states: Seq<M>, next: M|
        states.len() == calls.len() + 1 && states[0] == m && (forall|i: int| 0 <= i < calls.len() ==> try_manager_step::<C, T, E, M>(states[i], #[trigger] calls[i], states[i + 1]))
            && #[trigger] try_manager_failure::<C, T, E, M>(states[calls.len() as int], call, e, next)
}

/// A sequence of manager states that witnesses a run that ends in a failed call.
pub proof fn lemma_try_manager_stops<C, T, E, M: TryCellManage<C, T, E>>(m: M, calls: Seq<Option<ManagerCall<C, T>>>, states: Seq<M>, call: ManagerCall<C, T>, e: E, next: M)
    requires
        states.len() == calls.len() + 1,
        states[0] == m,
        forall|i: int| 0 <= i < calls.len() ==> try_manager_step::<C, T, E, M>(states[i], #[trigger] calls[i], states[i + 1]),
        try_manager_failure::<C, T, E, M>(states[calls.len() as int], call, e, next),
    ensures
        try_manager_stops::<C, T, E, M>(m, calls, call, e),
{
}

/// Successful calls made before a run that ends in a failed call extend that run.
pub proof fn lemma_try_manager_stops_after<C, T, E, M: TryCellManage<C, T, E>>(
    m: M,
    first: Seq<Option<ManagerCall<C, T>>>,
    states: Seq<M>,
    rest: Seq<Option<ManagerCall<C, T>>>,
    call: ManagerCall<C, T>,
    e: E,
)
    requires
        states.len() == first.len() + 1,
        states[0] == m,
        forall|i: int| 0 <= i < first.len() ==> try_manager_step::<C, T, E, M>(states[i], #[trigger] first[i], states[i + 1]),
        try_manager_stops::<C, T, E, M>(states[first.len() as int], rest, call, e),
    ensures
        try_manager_stops::<C, T, E, M>(m, first + rest, call, e),
{
    let (later, next) = choose|later: Seq<M>, next: M|
        later.len() == rest.len() + 1 && later[0] == states[first.len() as int] && (forall|i: int| 0 <= i < rest.len() ==> try_manager_step::<C, T, E, M>(later[i], #[trigger] rest[i], later[i + 1]))
            && #[trigger] try_manager_failure::<C, T, E, M>(later[rest.len() as int], call, e, next);
    let all = states + later.skip(1);
    let calls = first + rest;
    let n = first.len() as int;
    assert forall|i: int| 0 <= i < calls.len() implies try_manager_step::<C, T, E, M>(all[i], #[trigger] calls[i], all[i + 1]) by {
        if i < n {
            assert(calls[i] == first[i]);
            assert(all[i] == states[i]);
            assert(all[i + 1] == states[i + 1]);
        } else {
            assert(calls[i] == rest[i - n]);
            assert(all[i] == later[i - n]);
            assert(all[i + 1] == later[i - n + 1]);
            assert(try_manager_step::<C, T, E, M>(later[i - n], rest[i - n], later[i - n + 1]));
        }
    }
    assert(all[calls.len() as int] == later[rest.len() as int]);
    lemma_try_manager_stops(m, calls, all, call, e, next);
}

/// A sequence of manager states that witnesses a run.
pub proof fn lemma_manager_runs<C, T, M: CellManage<C, T>>(m: M, calls: Seq<Option<ManagerCall<C, T>>>, states: Seq<M>)
    requires
        states.len() == calls.len() + 1,
        states[0] == m,
        forall|i: int| 0 <= i < calls.len() ==> manager_step(states[i], #[trigger] calls[i], states[i + 1]),
    ensures
        manager_runs(m, calls),
{
}

/// A sequence of manager states that witnesses a successful run.
pub proof fn lemma_try_manager_runs<C, T, E, M: TryCellManage<C, T, E>>(m: M, calls: Seq<Option<ManagerCall<C, T>>>, states: Seq<M>)
    requires
        states.len() == calls.len() + 1,
        states[0] == m,
        forall|i: int| 0 <= i < calls.len() ==> try_manager_step::<C, T, E, M>(states[i], #[trigger] calls[i], states[i + 1]),
    ensures
        try_manager_runs::<C, T, E, M>(m, calls),
{
}

/// Use the utility function [cell_manager] to create a [CellManager].
pub struct CellManager<C, T, FL, FU, FR, Marker = ()> {
    load: FL,
    unload: FU,
    reload: FR,
    phantom: PhantomData<(C, T, Marker)>,
}

impl<C, T, FL, FU, FR, Marker> CellManager<C, T, FL, FU, FR, Marker> {
    /// The load function.
    pub closed spec fn load_fn(self) -> FL {
        self.load
    }

    /// The unload function.
    pub closed spec fn unload_fn(self) -> FU {
        self.unload
    }

    /// The reload function.
    pub closed spec fn reload_fn(self) -> FR {
        self.reload
    }
}

impl<C, T, FL, FU, FR> CellManage<C, T> for CellManager<C, T, FL, FU, FR> where
    FL: FnMut(C) -> T,
    FU: FnMut(C, T),
    FR: FnMut(C, C, &mut T),
 {
    /// The three functions accept every call.
    open spec fn ready(&self) -> bool {
        &&& forall|p: C| call_requires(self.load_fn(), (p,))
        &&& forall|p: C, v: T| call_requires(self.unload_fn(), (p, v))
        &&& forall|o: C, n: C, c: &mut T| call_requires(self.reload_fn(), (o, n, c))
    }

    /// The load function may give `value` for `position`; the manager stays as it is.
    open spec fn loads(&self, position: C, value: T, next: Self) -> bool {
        call_ensures(self.load_fn(), (position,), value) && next == *self
    }

    /// The unload function may be called on `position` and `value`; the manager stays as
    /// it is.
    open spec fn unloads(&self, position: C, value: T, next: Self) -> bool {
        call_ensures(self.unload_fn(), (position, value), ()) && next == *self
    }

    /// The manager stays as it is; what the reload function leaves in the cell is stated
    /// by [CellManager::reload] itself.
    open spec fn reloads(&self, old_position: C, new_position: C, before: T, after: T, next: Self) -> bool {
        next == *self
    }

    /// Load the cell at `position`.
    fn load(&mut self, position: C) -> (r: T) {
        assert(call_requires(self.load_fn(), (position,)));
        (self.load)(position)
    }

    /// Unload cell that was at `position`.
    fn unload(&mut self, position: C, old_value: T) {
        assert(call_requires(self.unload_fn(), (position, old_value)));
        (self.unload)(position, old_value)
    }

    /// Reload cell that was at `old_position` and is being moved to `new_position`.
    fn reload(&mut self, old_position: C, new_position: C, value: &mut T)
        ensures
            exists|c: &mut T|
                *c == *old(value) && *final(c) == *final(value) && #[trigger] call_ensures(old(self).reload_fn(), (old_position, new_position, c), ()),
    {
        let ghost f = self.reload_fn();
        let cell = &mut *value;
        assert(call_requires(f, (old_position, new_position, cell)));
        let r = (self.reload)(old_position, new_position, cell);
        r
    }
}

impl<C, T, E, FL, FU, FR> TryCellManage<C, T, E> for CellManager<C, T, FL, FU, FR, (E,)> where
    FL: FnMut(C) -> Result<T, E>,
    FU: FnMut(C, T) -> Result<(), E>,
    FR: FnMut(C, C, &mut T) -> Result<(), E>,
 {
    /// The three functions accept every call.
    open spec fn try_ready(&self) -> bool {
        &&& forall|p: C| call_requires(self.load_fn(), (p,))
        &&& forall|p: C, v: T| call_requires(self.unload_fn(), (p, v))
        &&& forall|o: C, n: C, c: &mut T| call_requires(self.reload_fn(), (o, n, c))
    }

    /// The load function may give `result` for `position`; the manager stays as it is.
    open spec fn try_loads(&self, position: C, result: Result<T, E>, next: Self) -> bool {
        call_ensures(self.load_fn(), (position,), result) && next == *self
    }

    /// The unload function may give `result` for `position` and `value`; the manager
    /// stays as it is.
    open spec fn try_unloads(&self, position: C, value: T, result: Result<(), E>, next: Self) -> bool {
        call_ensures(self.unload_fn(), (position, value), result) && next == *self
    }

    /// The manager stays as it is; what the reload function leaves in the cell and gives
    /// back is stated by [CellManager::try_reload] itself.
    open spec fn try_reloads(&self, old_position: C, new_position: C, before: T, after: T, result: Result<(), E>, next: Self) -> bool {
        next == *self
    }

    /// Load the cell at `position`.
    fn try_load(&mut self, position: C) -> (r: Result<T, E>) {
        assert(call_requires(self.load_fn(), (position,)));
        (self.load)(position)
    }

    /// Unload cell that was at `position`.
    fn try_unload(&mut self, position: C, old_value: T) -> (r: Result<(), E>) {
        assert(call_requires(self.unload_fn(), (position, old_value)));
        (self.unload)(position, old_value)
    }

    /// Reload cell that was at `old_position` and is being moved to `new_position`.
    fn try_reload(&mut self, old_position: C, new_position: C, value: &mut T) -> (r: Result<(), E>)
        ensures
            exists|c: &mut T|
                *c == *old(value) && *final(c) == *final(value) && #[trigger] call_ensures(old(self).reload_fn(), (old_position, new_position, c), r),
    {
        let ghost f = self.reload_fn();
        let cell = &mut *value;
        assert(call_requires(f, (old_position, new_position, cell)));
        let r = (self.reload)(old_position, new_position, cell);
        r
    }
}

/// The states of a run of a [CellManager] up to `k` are the manager itself.
proof fn lemma_cell_manager_states<C, T, FL, FU, FR>(m: CellManager<C, T, FL, FU, FR>, calls: Seq<Option<ManagerCall<C, T>>>, states: Seq<CellManager<C, T, FL, FU, FR>>, k: int)
    where
        FL: FnMut(C) -> T,
        FU: FnMut(C, T),
        FR: FnMut(C, C, &mut T),
    requires
        0 <= k <= calls.len(),
        states.len() == calls.len() + 1,
        states[0] == m,
        forall|i: int| 0 <= i < calls.len() ==> manager_step(states[i], #[trigger] calls[i], states[i + 1]),
    ensures
        forall|i: int| 0 <= i <= k ==> states[i] == m,
    decreases k,
{
    if k > 0 {
        lemma_cell_manager_states(m, calls, states, k - 1);
        assert(manager_step(states[k - 1], calls[k - 1], states[k]));
    }
}

/// The states of a successful run of fallible calls of a [CellManager] up to `k` are the
/// manager itself.
proof fn lemma_try_cell_manager_states<C, T, E, FL, FU, FR>(m: CellManager<C, T, FL, FU, FR, (E,)>, calls: Seq<Option<ManagerCall<C, T>>>, states: Seq<CellManager<C, T, FL, FU, FR, (E,)>>, k: int)
    where
        FL: FnMut(C) -> Result<T, E>,
        FU: FnMut(C, T) -> Result<(), E>,
        FR: FnMut(C, C, &mut T) -> Result<(), E>,
    requires
        0 <= k <= calls.len(),
        states.len() == calls.len() + 1,
        states[0] == m,
        forall|i: int| 0 <= i < calls.len() ==> try_manager_step::<C, T, E, CellManager<C, T, FL, FU, FR, (E,)>>(states[i], #[trigger] calls[i], states[i + 1]),
    ensures
        forall|i: int| 0 <= i <= k ==> states[i] == m,
    decreases k,
{
    if k > 0 {
        lemma_try_cell_manager_states(m, calls, states, k - 1);
        assert(try_manager_step::<C, T, E, CellManager<C, T, FL, FU, FR, (E,)>>(states[k - 1], calls[k - 1], states[k]));
    }
}

/// A [CellManager] stays as it is through a run: every call of the run may be made on
/// the manager itself.
pub proof fn lemma_cell_manager_runs<C, T, FL, FU, FR>(m: CellManager<C, T, FL, FU, FR>, calls: Seq<Option<ManagerCall<C, T>>>)
    where
        FL: FnMut(C) -> T,
        FU: FnMut(C, T),
        FR: FnMut(C, C, &mut T),
    requires
        manager_runs(m, calls),
    ensures
        forall|i: int| 0 <= i < calls.len() ==> manager_step(m, #[trigger] calls[i], m),
        forall|i: int| 0 <= i < calls.len() ==> (#[trigger] calls[i] matches Some(ManagerCall::Load(p, v)) ==> call_ensures(m.load_fn(), (p,), v)),
        forall|i: int| 0 <= i < calls.len() ==> (#[trigger] calls[i] matches Some(ManagerCall::Unload(p, v)) ==> call_ensures(m.unload_fn(), (p, v), ())),
{
    let states = choose|states: Seq<CellManager<C, T, FL, FU, FR>>|
        states.len() == calls.len() + 1 && states[0] == m && forall|i: int| 0 <= i < calls.len() ==> manager_step(states[i], #[trigger] calls[i], states[i + 1]);
    lemma_cell_manager_states(m, calls, states, calls.len() as int);
    assert forall|i: int| 0 <= i < calls.len() implies manager_step(m, #[trigger] calls[i], m) by {
        assert(manager_step(states[i], calls[i], states[i + 1]));
        assert(states[i] == m && states[i + 1] == m);
    }
    assert forall|i: int| 0 <= i < calls.len() implies (#[trigger] calls[i] matches Some(ManagerCall::Load(p, v)) ==> call_ensures(m.load_fn(), (p,), v)) by {
        assert(manager_step(m, calls[i], m));
    }
    assert forall|i: int| 0 <= i < calls.len() implies (#[trigger] calls[i] matches Some(ManagerCall::Unload(p, v)) ==> call_ensures(m.unload_fn(), (p, v), ())) by {
        assert(manager_step(m, calls[i], m));
    }
}

/// A [CellManager] stays as it is through a successful run of fallible calls: every call
/// of the run may be made on the manager itself and succeed.
pub proof fn lemma_try_cell_manager_runs<C, T, E, FL, FU, FR>(m: CellManager<C, T, FL, FU, FR, (E,)>, calls: Seq<Option<ManagerCall<C, T>>>)
    where
        FL: FnMut(C) -> Result<T, E>,
        FU: FnMut(C, T) -> Result<(), E>,
        FR: FnMut(C, C, &mut T) -> Result<(), E>,
    requires
        try_manager_runs::<C, T, E, CellManager<C, T, FL, FU, FR, (E,)>>(m, calls),
    ensures
        forall|i: int| 0 <= i < calls.len() ==> try_manager_step::<C, T, E, CellManager<C, T, FL, FU, FR, (E,)>>(m, #[trigger] calls[i], m),
        forall|i: int| 0 <= i < calls.len() ==> (#[trigger] calls[i] matches Some(ManagerCall::Load(p, v)) ==> call_ensures(m.load_fn(), (p,), Ok::<T, E>(v))),
        forall|i: int| 0 <= i < calls.len() ==> (#[trigger] calls[i] matches Some(ManagerCall::Unload(p, v)) ==> exists|r: Result<(), E>| #[trigger] call_ensures(m.unload_fn(), (p, v), r) && r is Ok),
{
    let states = choose|states: Seq<CellManager<C, T, FL, FU, FR, (E,)>>|
        states.len() == calls.len() + 1 && states[0] == m && forall|i: int| 0 <= i < calls.len() ==> try_manager_step::<C, T, E, CellManager<C, T, FL, FU, FR, (E,)>>(states[i], #[trigger] calls[i], states[i + 1]);
    lemma_try_cell_manager_states(m, calls, states, calls.len() as int);
    assert forall|i: int| 0 <= i < calls.len() implies try_manager_step::<C, T, E, CellManager<C, T, FL, FU, FR, (E,)>>(m, #[trigger] calls[i], m) by {
        assert(try_manager_step::<C, T, E, CellManager<C, T, FL, FU, FR, (E,)>>(states[i], calls[i], states[i + 1]));
        assert(states[i] == m && states[i + 1] == m);
    }
    assert forall|i: int| 0 <= i < calls.len() implies (#[trigger] calls[i] matches Some(ManagerCall::Load(p, v)) ==> call_ensures(m.load_fn(), (p,), Ok::<T, E>(v))) by {
        assert(try_manager_step::<C, T, E, CellManager<C, T, FL, FU, FR, (E,)>>(m, calls[i], m));
    }
    assert forall|i: int| 0 <= i < calls.len() implies (#[trigger] calls[i] matches Some(ManagerCall::Unload(p, v)) ==> exists|r: Result<(), E>| #[trigger] call_ensures(m.unload_fn(), (p, v), r) && r is Ok) by {
        assert(try_manager_step::<C, T, E, CellManager<C, T, FL, FU, FR, (E,)>>(m, calls[i], m));
    }
}

/// When a run of fallible calls of a [CellManager] ends in a failed call, that call failed
/// on the manager itself: a failed load or unload is one its function may give.
pub proof fn lemma_try_cell_manager_stops<C, T, E, FL, FU, FR>(
    m: CellManager<C, T, FL, FU, FR, (E,)>,
    calls: Seq<Option<ManagerCall<C, T>>>,
    call: ManagerCall<C, T>,
    e: E,
)
    where
        FL: FnMut(C) -> Result<T, E>,
        FU: FnMut(C, T) -> Result<(), E>,
        FR: FnMut(C, C, &mut T) -> Result<(), E>,
    requires
        try_manager_stops::<C, T, E, CellManager<C, T, FL, FU, FR, (E,)>>(m, calls, call, e),
    ensures
        call matches ManagerCall::Load(p, v) ==> call_ensures(m.load_fn(), (p,), Err::<T, E>(e)),
        call matches ManagerCall::Unload(p, v) ==> call_ensures(m.unload_fn(), (p, v), Err::<(), E>(e)),
{
    let (states, next) = choose|states: Seq<CellManager<C, T, FL, FU, FR, (E,)>>, next: CellManager<C, T, FL, FU, FR, (E,)>|
        states.len() == calls.len() + 1 && states[0] == m && (forall|i: int| 0 <= i < calls.len() ==> try_manager_step::<C, T, E, CellManager<C, T, FL, FU, FR, (E,)>>(states[i], #[trigger] calls[i], states[i + 1]))
            && #[trigger] try_manager_failure::<C, T, E, CellManager<C, T, FL, FU, FR, (E,)>>(states[calls.len() as int], call, e, next);
    lemma_try_cell_manager_states(m, calls, states, calls.len() as int);
    assert(states[calls.len() as int] == m);
}

/// Creates a [CellManager] instance that implements [CellManage] using the given `load`, `unload`, and `reload` functions.
pub fn cell_manager<C, T, FL, FU, FR>(load: FL, unload: FU, reload: FR) -> (r: CellManager<C, T, FL, FU, FR>) where
    FL: FnMut(C) -> T,
    FU: FnMut(C, T),
    FR: FnMut(C, C, &mut T),

    ensures
        r.load_fn() == load,
        r.unload_fn() == unload,
        r.reload_fn() == reload,
        r.ready() <==> {
            &&& forall|p: C| call_requires(load, (p,))
            &&& forall|p: C, v: T| call_requires(unload, (p, v))
            &&& forall|o: C, n: C, c: &mut T| call_requires(reload, (o, n, c))
        },
{
    let r = CellManager { load, unload, reload, phantom: PhantomData };
    assert(r.load_fn() == load && r.unload_fn() == unload && r.reload_fn() == reload);
    r
}

/// Creates a [CellManager] instance that implements [TryCellManage] using the given `load`, `unload`, and `reload` functions.
pub fn try_cell_manager<C, T, E, FL, FU, FR>(load: FL, unload: FU, reload: FR) -> (r: CellManager<C, T, FL, FU, FR, (E,)>) where
    FL: FnMut(C) -> Result<T, E>,
    FU: FnMut(C, T) -> Result<(), E>,
    FR: FnMut(C, C, &mut T) -> Result<(), E>,

    ensures
        r.load_fn() == load,
        r.unload_fn() == unload,
        r.reload_fn() == reload,
        r.try_ready() <==> {
            &&& forall|p: C| call_requires(load, (p,))
            &&& forall|p: C, v: T| call_requires(unload, (p, v))
            &&& forall|o: C, n: C, c: &mut T| call_requires(reload, (o, n, c))
        },
{
    let r = CellManager { load, unload, reload, phantom: PhantomData };
    assert(r.load_fn() == load && r.unload_fn() == unload && r.reload_fn() == reload);
    r
}

} // verus!
