//! The callback adapter: a foreign-visible object that wraps exactly one host
//! action behind a single entry point the foreign runtime can invoke. The
//! adapter is itself retain-counted; it is created fully initialised, the
//! action is moved in once and is immutable afterwards, and invocation happens
//! on the one cooperative event-loop thread, so the adapter needs no
//! synchronisation of its own.

use vstd::prelude::*;
use crate::handles::Runtime;
use crate::handles::StrongHandle;

verus! {

/// What a host closure bound to a menu item does when its item is activated:
/// append a clickable or a label to the tree, announce the activation and
/// nothing more, or delete the tree item at an absolute position captured when
/// the closure was built.
#[derive(Clone, Copy, PartialEq, Eq, Structural, Debug)]
pub enum Action {
    AddClickable,
    AddLabel,
    Announce,
    Delete { abs: usize },
}

/// One foreign-invocable object owning one host action. Whoever holds the
/// adapter holds the strong claim on its foreign object; dropping the adapter
/// into the runtime releases that claim.
pub struct CallbackAdapter {
    handle: StrongHandle,
    action: Action,
}

impl CallbackAdapter {
    /// The identity of the adapter's foreign object.
    pub closed spec fn id(self) -> usize {
        self.handle.id()
    }

    /// The action the adapter was built over.
    pub closed spec fn action(self) -> Action {
        self.action
    }

    /// Allocates the adapter's foreign object (count one) and moves the action
    /// in. The adapter is complete before anything can invoke it: no partially
    /// constructed adapter is ever visible to the foreign runtime.
    pub fn new(rt: &mut Runtime, action: Action) -> (a: CallbackAdapter)
        requires
            old(rt).wf(),
        ensures
            final(rt).wf(),
            final(rt).counts() == old(rt).counts().push(1u64),
            final(rt).scopes() == old(rt).scopes(),
            a.id() == old(rt).counts().len(),
            a.action() == action,
    {
        CallbackAdapter { handle: rt.create(), action }
    }

    /// The single exposed entry point: yields the stored action for the caller
    /// to carry out synchronously. A failure inside the action is not caught
    /// here; it is fatal to the process.
    pub fn invoke(&self) -> (act: Action)
        ensures
            act == self.action(),
    {
        self.action
    }

    /// The identity of the adapter's foreign object, as a value.
    pub fn obj(&self) -> (r: usize)
        ensures
            r == self.id(),
    {
        self.handle.target()
    }

    /// Surrenders the adapter's strong claim to whoever will release it.
    pub(crate) fn into_handle(self) -> (h: StrongHandle)
        ensures
            h.id() == self.id(),
    {
        self.handle
    }
}

} // verus!
