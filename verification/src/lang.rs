//! The language layer: syntax kinds, payloads and how node payloads are built.
use crate::green::Green;
use vstd::prelude::*;

verus! {

/// A family of syntax trees.
///
/// A language decides the syntax kind type, the payload type carried by every
/// element, and how a node's payload is composed from its kind and the full
/// slice of its children.
pub trait Language: Sized {
    type Kind: Clone + Copy + 'static;

    type Payload: Clone + 'static;

    fn compose_node(kind: Self::Kind, children: &[Green<Self>]) -> Self::Payload;
}

/// `payload` is a value that `L::compose_node` may return for `kind` and a
/// child slice holding `children`.
pub open spec fn composes<L: Language>(
    kind: L::Kind,
    children: Seq<Green<L>>,
    payload: L::Payload,
) -> bool {
    exists|s: &[Green<L>]| s@ == children && call_ensures(L::compose_node, (kind, s), payload)
}

} // verus!
