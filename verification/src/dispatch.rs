//! The dispatcher: a table of handlers, each at the slot that its
//! registration gave it, and the routing of an event to its handler.
//!
//! An event names a slot. Where the slot has no handler the event is
//! ignored; where it has one, the handler is applied to the current state.
//! A state is handed over to the handler and comes back in the step, so one
//! event is handled at a time.

use vstd::prelude::*;

use crate::state::{ConfigState, StateView};
use crate::commit::{begin, begin_commit, settled, Step, StepView};
use crate::sync::{discard, toggle};

verus! {

/// What the handler at a slot does.
#[derive(Clone, Copy, Debug, PartialEq, Eq, Structural)]
pub enum Handler {
    /// Writes the dirty entries back.
    Commit,
    /// Throws the edits away.
    Discard,
    /// Toggles the entry at this position of the entries.
    Toggle(usize),
}

/// What a handler makes of a state.
pub open spec fn handled(handler: Handler, state: StateView) -> StepView {
    match handler {
        Handler::Commit => begin(state),
        Handler::Discard => StepView::Done(Ok(state.discarded())),
        Handler::Toggle(position) => StepView::Done(Ok(state.toggled(position as int))),
    }
}

/// What an event for `slot` makes of a state: what the handler at that slot
/// makes of it, and the state itself where the slot has none.
pub open spec fn dispatched(handlers: Seq<Handler>, slot: int, state: StateView) -> StepView {
    if 0 <= slot < handlers.len() {
        handled(handlers[slot], state)
    } else {
        StepView::Done(Ok(state))
    }
}

/// The table for a state with `count` entries: commit at slot 0, discard at
/// slot 1, and the toggle of entry `i` at slot `i + 2`.
pub open spec fn standard(count: int) -> Seq<Handler> {
    Seq::new(
        (count + 2) as nat,
        |slot: int|
            if slot == 0 {
                Handler::Commit
            } else if slot == 1 {
                Handler::Discard
            } else {
                Handler::Toggle((slot - 2) as usize)
            },
    )
}

/// The slot of the commit handler in the standard table.
pub const COMMIT_SLOT: u64 = 0;

/// The slot of the discard handler in the standard table.
pub const DISCARD_SLOT: u64 = 1;

/// The slot at which the standard table has the toggle of the entry at
/// `position`; `None` where that number is past the range of slots.
pub fn toggle_slot(position: usize) -> (slot: Option<u64>)
    ensures
        match slot {
            Some(slot) => slot == position + 2 && forall|count: int|
                position < count ==> #[trigger] standard(count)[slot as int] == Handler::Toggle(
                    position,
                ),
            None => position + 2 > u64::MAX,
        },
{
    let position = position as u64;
    if position <= u64::MAX - 2 {
        Some(position + 2)
    } else {
        None
    }
}

/// Applies a handler to a state.
pub fn handle(handler: Handler, state: ConfigState) -> (step: Step)
    ensures
        step@ == handled(handler, state@),
        step matches Step::Pending(job) ==> job@.wf(),
{
    match handler {
        Handler::Commit => begin_commit(state),
        Handler::Discard => Step::Done(discard(state)),
        Handler::Toggle(position) => Step::Done(toggle(state, position)),
    }
}

/// The state that goes on after a handler has ended: the new state where it
/// succeeded, the rolled-back state where it failed. A failure never stops
/// the loop.
pub fn settle(result: Result<ConfigState, ConfigState>) -> (state: ConfigState)
    ensures
        state@ == settled(
            match result {
                Ok(s) => Ok(s@),
                Err(s) => Err(s@),
            },
        ),
{
    match result {
        Ok(s) => s,
        Err(s) => s,
    }
}

/// An input event: the slot it is for, and a payload that the dispatcher
/// carries without looking into it.
#[derive(Debug)]
pub struct Event<P> {
    pub slot: u64,
    pub payload: P,
}

/// The table of handlers. A handler's slot is the number of handlers that
/// were registered before it.
#[derive(Debug)]
pub struct Dispatcher {
    handlers: Vec<Handler>,
}

impl View for Dispatcher {
    type V = Seq<Handler>;

    closed spec fn view(&self) -> Seq<Handler> {
        self.handlers@
    }
}

impl Dispatcher {
    /// A table without handlers.
    pub fn new() -> (d: Dispatcher)
        ensures
            d@ == Seq::<Handler>::empty(),
    {
        Dispatcher { handlers: Vec::new() }
    }

    /// Registers a handler and gives its slot. The handlers that were there
    /// keep theirs.
    pub fn register(&mut self, handler: Handler) -> (slot: u64)
        ensures
            final(self)@ == old(self)@.push(handler),
            slot == old(self)@.len(),
    {
        let slot = self.handlers.len() as u64;
        self.handlers.push(handler);
        slot
    }

    /// The table for a state with `count` entries.
    pub fn for_entries(count: usize) -> (d: Dispatcher)
        ensures
            d@ == standard(count as int),
    {
        let mut d = Dispatcher::new();
        d.register(Handler::Commit);
        d.register(Handler::Discard);
        let mut i: usize = 0;
        while i < count
            invariant
                i <= count,
                d@.len() == i + 2,
                forall|slot: int| 0 <= slot < i + 2 ==> #[trigger] d@[slot] == standard(count as int)[slot],
            decreases count - i,
        {
            d.register(Handler::Toggle(i));
            i = i + 1;
        }
        assert(d@ =~= standard(count as int));
        d
    }

    /// The number of handlers.
    pub fn len(&self) -> (n: usize)
        ensures
            n == self@.len(),
    {
        self.handlers.len()
    }

    /// The handler at `slot`, if there is one.
    pub fn handler(&self, slot: u64) -> (h: Option<Handler>)
        ensures
            h == if slot < self@.len() {
                Some(self@[slot as int])
            } else {
                None::<Handler>
            },
    {
        if slot < self.handlers.len() as u64 {
            Some(self.handlers[slot as usize])
        } else {
            None
        }
    }

    /// Routes an event to the handler at its slot. What the payload holds
    /// makes no difference to the state.
    pub fn deliver<P>(&self, event: Event<P>, state: ConfigState) -> (step: Step)
        ensures
            step@ == dispatched(self@, event.slot as int, state@),
            step matches Step::Pending(job) ==> job@.wf(),
    {
        self.dispatch(event.slot, state)
    }

    /// Routes an event for `slot` to its handler. An event for a slot
    /// without a handler is ignored: the state comes back as it is.
    pub fn dispatch(&self, slot: u64, state: ConfigState) -> (step: Step)
        ensures
            step@ == dispatched(self@, slot as int, state@),
            step matches Step::Pending(job) ==> job@.wf(),
    {
        match self.handler(slot) {
            Some(handler) => handle(handler, state),
            None => Step::Done(Ok(state)),
        }
    }
}

} // verus!
