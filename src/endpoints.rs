//! Walking the system's source and destination endpoints by index. The
//! platform reports how many there are and looks each one up; what stands
//! here decides which index comes next.

use vstd::prelude::*;

verus! {

/// Destination endpoints available in the system.
pub struct Destinations;

/// Source endpoints available in the system.
pub struct Sources;

/// Position in a walk over the destinations: the next index, and how many
/// there are.
pub struct DestinationsIterator {
    index: usize,
    count: usize,
}

/// Position in a walk over the sources: the next index, and how many there
/// are.
pub struct SourcesIterator {
    index: usize,
    count: usize,
}

impl Destinations {
    /// A walk over `count` destinations, from index 0.
    pub fn iter_with_count(count: usize) -> (r: DestinationsIterator)
        ensures
            r.spec_index() == 0,
            r.spec_count() == count,
    {
        DestinationsIterator { index: 0, count }
    }
}

impl Sources {
    /// A walk over `count` sources, from index 0.
    pub fn iter_with_count(count: usize) -> (r: SourcesIterator)
        ensures
            r.spec_index() == 0,
            r.spec_count() == count,
    {
        SourcesIterator { index: 0, count }
    }
}

impl DestinationsIterator {
    pub closed spec fn spec_index(&self) -> int {
        self.index as int
    }

    pub closed spec fn spec_count(&self) -> int {
        self.count as int
    }

    /// The index of the next destination to look up, or `None` once all
    /// were walked.
    pub fn next_index(&mut self) -> (r: Option<usize>)
        ensures
            final(self).spec_count() == old(self).spec_count(),
            old(self).spec_index() < old(self).spec_count() ==> r == Some(old(self).spec_index() as usize)
                && final(self).spec_index() == old(self).spec_index() + 1,
            old(self).spec_index() >= old(self).spec_count() ==> r is None && *final(self)
                == *old(self),
    {
        if self.index < self.count {
            let i = self.index;
            self.index = self.index + 1;
            Some(i)
        } else {
            None
        }
    }
}

impl SourcesIterator {
    pub closed spec fn spec_index(&self) -> int {
        self.index as int
    }

    pub closed spec fn spec_count(&self) -> int {
        self.count as int
    }

    /// The index of the next source to look up, or `None` once all were
    /// walked.
    pub fn next_index(&mut self) -> (r: Option<usize>)
        ensures
            final(self).spec_count() == old(self).spec_count(),
            old(self).spec_index() < old(self).spec_count() ==> r == Some(old(self).spec_index() as usize)
                && final(self).spec_index() == old(self).spec_index() + 1,
            old(self).spec_index() >= old(self).spec_count() ==> r is None && *final(self)
                == *old(self),
    {
        if self.index < self.count {
            let i = self.index;
            self.index = self.index + 1;
            Some(i)
        } else {
            None
        }
    }
}

} // verus!
