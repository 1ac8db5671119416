//! The memoized view: a view derived from a state is kept together with the
//! state it was derived from, and is rebuilt only when the state has changed
//! by value.

use vstd::prelude::*;

use crate::state::{ConfigState, StateView};

verus! {

/// A cache as plain values.
pub struct CacheView<W> {
    /// The state that the cached view was derived from.
    pub last_seen: StateView,
    /// The cached view.
    pub view: W,
    /// How often the view was rebuilt since the cache was made.
    pub rebuilds: nat,
}

/// How a cache stands after a view was derived for `state`.
///
/// Where the state equals by value the one last seen, the cache is as it
/// was: the same view, no rebuild. Otherwise the view was rebuilt once and
/// the cache now holds the new state.
pub open spec fn derived<W>(before: CacheView<W>, state: StateView, after: CacheView<W>) -> bool {
    if before.last_seen.same_value(state) {
        after == before
    } else {
        &&& after.last_seen == state
        &&& after.rebuilds == before.rebuilds + 1
    }
}

/// The last state seen and the view that was derived from it.
pub struct ViewCache<W> {
    last_seen: ConfigState,
    view: W,
    rebuilds: Ghost<nat>,
}

impl<W> View for ViewCache<W> {
    type V = CacheView<W>;

    closed spec fn view(&self) -> CacheView<W> {
        CacheView { last_seen: self.last_seen@, view: self.view, rebuilds: self.rebuilds@ }
    }
}

impl<W> ViewCache<W> {
    /// A cache that has seen the empty state and holds `empty` as its view.
    pub fn new(empty: W) -> (c: ViewCache<W>)
        ensures
            c@ == (CacheView { last_seen: StateView::empty(), view: empty, rebuilds: 0 }),
    {
        ViewCache { last_seen: ConfigState::default(), view: empty, rebuilds: Ghost(0) }
    }

    /// The cached view.
    pub fn view_ref(&self) -> (view: &W)
        ensures
            *view == self@.view,
    {
        &self.view
    }

    /// Whether the cached view stands for `state`: the state equals by value
    /// the one last seen.
    pub fn is_current(&self, state: &ConfigState) -> (r: bool)
        ensures
            r == self@.last_seen.same_value(state@),
    {
        self.last_seen.same_value(state)
    }

    /// The view for `state`.
    ///
    /// Where `state` equals by value the state last seen, this is the cached
    /// view itself and `rebuild` is not called. Otherwise `rebuild` is called
    /// once, on `state` alone, and its result replaces the cached view.
    pub fn derive<F: FnOnce(&ConfigState) -> W>(&mut self, state: &ConfigState, rebuild: F) -> (view: &W)
        requires
            call_requires(rebuild, (state,)),
        ensures
            derived(old(self)@, state@, final(self)@),
            !old(self)@.last_seen.same_value(state@) ==> call_ensures(
                rebuild,
                (state,),
                final(self)@.view,
            ),
            *view == final(self)@.view,
    {
        if !self.last_seen.same_value(state) {
            let view = rebuild(state);
            self.view = view;
            self.last_seen = state.clone();
            proof {
                self.rebuilds@ = self.rebuilds@ + 1;
            }
        }
        &self.view
    }
}

/// Deriving a view twice in a row, for states that are equal by value,
/// leaves the cache after the second time as it was after the first: the
/// same view, and no further rebuild.
pub proof fn lemma_derive_unchanged<W>(
    before: CacheView<W>,
    first: StateView,
    between: CacheView<W>,
    second: StateView,
    after: CacheView<W>,
)
    requires
        derived(before, first, between),
        derived(between, second, after),
        first.same_value(second),
    ensures
        after == between,
        after.view == between.view,
        after.rebuilds == between.rebuilds,
{
    assert(between.last_seen.same_value(first));
}

/// Deriving a view for a state that differs by value from the state of the
/// derivation before it rebuilds the view exactly once.
pub proof fn lemma_derive_changed<W>(
    before: CacheView<W>,
    first: StateView,
    between: CacheView<W>,
    second: StateView,
    after: CacheView<W>,
)
    requires
        derived(before, first, between),
        derived(between, second, after),
        !first.same_value(second),
    ensures
        after.rebuilds == between.rebuilds + 1,
        after.last_seen == second,
{
    assert(between.last_seen.same_value(first));
}

/// However many views are derived, the view is rebuilt at most once for each
/// of them.
pub proof fn lemma_derive_rebuilds_at_most_once<W>(
    before: CacheView<W>,
    state: StateView,
    after: CacheView<W>,
)
    requires
        derived(before, state, after),
    ensures
        before.rebuilds <= after.rebuilds <= before.rebuilds + 1,
        after.last_seen.same_value(state),
{
}

} // verus!
