//! The live role map of a service: an immutable snapshot behind a reference
//! that is replaced as a whole, so that a reader always sees one complete
//! map.

use std::sync::Arc;
use arc_swap::ArcSwap;
use vstd::prelude::*;
use crate::role::RoleView;
use crate::role_map::RoleMap;

verus! {

/// A role map that is never changed after it was made.
pub struct RoleSnapshot {
    roles: RoleMap,
}

impl View for RoleSnapshot {
    type V = Map<Seq<char>, RoleView>;

    closed spec fn view(&self) -> Map<Seq<char>, RoleView> {
        self.roles@
    }
}

impl RoleSnapshot {
    #[verifier::type_invariant]
    spec fn inv(&self) -> bool {
        self.roles.wf()
    }

    /// The snapshot of a role map.
    pub fn new(roles: RoleMap) -> (r: RoleSnapshot)
        requires
            roles.wf(),
        ensures
            r@ == roles@,
    {
        RoleSnapshot { roles }
    }

    /// The role map of the snapshot.
    pub fn roles(&self) -> (r: &RoleMap)
        ensures
            r.wf(),
            r@ == self@,
    {
        proof {
            use_type_invariant(self);
        }
        &self.roles
    }
}

/// The place that holds the current snapshot: an `arc_swap::ArcSwap`. What
/// it holds can be replaced through a shared reference, so its content is no
/// property of its value: nothing is known of what a load returns but that
/// it is a snapshot. The struct is opaque to the verifier, because the type
/// of the default strategy of `ArcSwap` is private to its crate and cannot
/// be declared.
#[verifier::external_body]
pub struct RoleCell {
    inner: ArcSwap<RoleSnapshot>,
}

/// `arc_swap::ArcSwapAny::new`: a cell that holds `first`. Nothing is
/// claimed of the result.
#[verifier::external_body]
pub(crate) fn cell_new(first: Arc<RoleSnapshot>) -> (r: RoleCell) {
    RoleCell { inner: ArcSwap::new(first) }
}

/// `arc_swap::ArcSwapAny::load_full`: the snapshot that the cell holds at
/// the moment of the call. Nothing is claimed of the result.
#[verifier::external_body]
pub(crate) fn cell_load(cell: &RoleCell) -> (r: Arc<RoleSnapshot>) {
    cell.inner.load_full()
}

/// `arc_swap::ArcSwapAny::swap`: puts `next` into the cell in one atomic
/// step and returns the snapshot that was there. Nothing is claimed of the
/// result.
#[verifier::external_body]
pub(crate) fn cell_swap(cell: &RoleCell, next: Arc<RoleSnapshot>) -> (r: Arc<RoleSnapshot>) {
    cell.inner.swap(next)
}

} // verus!
