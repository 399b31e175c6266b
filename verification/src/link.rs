//! The link abstraction: a nullable, non-owning reference between nodes.

use vstd::prelude::*;

verus! {

/// A raw, nullable, non-owning reference to a node of an intrusive list.
///
/// Nodes live in an arena of stable slots; a present link names the slot of
/// the node it points at. Links are used purely for traversal, never for
/// lifetime management: the list's push/pop protocol rewrites every link
/// before the node it pointed at leaves the arena.
#[derive(Clone, Copy)]
pub struct Link {
    slot: Option<usize>,
}

impl Link {
    /// The slot this link points at, or `None` when the link is absent.
    pub closed spec fn target(&self) -> Option<usize> {
        self.slot
    }

    /// True when the link points at nothing.
    pub open spec fn is_absent(&self) -> bool {
        self.target() is None
    }

    /// Construct an absent link.
    pub fn absent() -> (l: Link)
        ensures
            l.target() is None,
    {
        Link { slot: None }
    }

    /// Construct a link pointing at the node in slot `i`.
    pub fn present(i: usize) -> (l: Link)
        ensures
            l.target() == Some(i),
    {
        Link { slot: Some(i) }
    }

    /// True when the link is absent.
    pub fn is_none(&self) -> (r: bool)
        ensures
            r == self.is_absent(),
    {
        self.slot.is_none()
    }

    /// The slot the link points at, if any.
    pub fn resolve(&self) -> (r: Option<usize>)
        ensures
            r == self.target(),
    {
        self.slot
    }

    /// Return the current state and leave an absent link behind, so that a
    /// later rewrite cannot reach the same node through two live paths.
    pub fn take(&mut self) -> (r: Link)
        ensures
            r == *old(self),
            final(self).target() is None,
    {
        let r = Link { slot: self.slot };
        self.slot = None;
        r
    }
}

} // verus!
