//! A concrete list element: a region of free memory, as the kernel's
//! allocator tracks it. The region carries its own links, so a free list of
//! regions allocates nothing beyond the regions themselves.

use crate::link::Link;
use crate::list::Node;
use vstd::prelude::*;

verus! {

/// A region of free memory: its size, and the links that let it sit in an
/// intrusive list.
pub struct Region {
    /// The region's size in bytes.
    pub size: u64,
    prev: Link,
    next: Link,
}

impl Region {
    /// A free-standing region with absent links.
    pub fn new(size: u64) -> (r: Region)
        ensures
            r.payload() == size,
            r.prev_link().target() is None,
            r.next_link().target() is None,
    {
        Region { size, prev: Link::absent(), next: Link::absent() }
    }
}

impl Node for Region {
    type Payload = u64;

    closed spec fn prev_link(&self) -> Link {
        self.prev
    }

    closed spec fn next_link(&self) -> Link {
        self.next
    }

    closed spec fn payload(&self) -> u64 {
        self.size
    }

    fn prev(&self) -> Link {
        self.prev
    }

    fn next(&self) -> Link {
        self.next
    }

    fn set_prev(&mut self, l: Link) {
        self.prev = l;
    }

    fn set_next(&mut self, l: Link) {
        self.next = l;
    }
}

} // verus!
