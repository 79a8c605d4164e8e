//! Small copyable indices for the elements of an index-addressed graph.

use vstd::prelude::*;

verus! {

/// The integer type that an index holds unless another is named.
pub type DefaultIndex = u16;

/// An integer type that can serve as an element index.
pub trait IndexType: Copy + Default + core::hash::Hash + Ord {
    /// The index for position `x`, cut down to the type's width.
    fn new(x: usize) -> Self;

    /// The position that the index stands for.
    fn index(&self) -> usize;
}

impl IndexType for usize {
    fn new(x: usize) -> (r: usize)
        ensures
            r == x,
    {
        x
    }

    fn index(&self) -> (r: usize)
        ensures
            r == *self,
    {
        *self
    }
}

impl IndexType for u32 {
    fn new(x: usize) -> (r: u32)
        ensures
            r == x as u32,
    {
        #[verifier::truncate]
        (x as u32)
    }

    fn index(&self) -> (r: usize)
        ensures
            r == *self,
    {
        *self as usize
    }
}

impl IndexType for u16 {
    fn new(x: usize) -> (r: u16)
        ensures
            r == x as u16,
    {
        #[verifier::truncate]
        (x as u16)
    }

    fn index(&self) -> (r: usize)
        ensures
            r == *self,
    {
        *self as usize
    }
}

impl IndexType for u8 {
    fn new(x: usize) -> (r: u8)
        ensures
            r == x as u8,
    {
        #[verifier::truncate]
        (x as u8)
    }

    fn index(&self) -> (r: usize)
        ensures
            r == *self,
    {
        *self as usize
    }
}

/// Identifies a node by position.
#[derive(Copy, Clone, Default, PartialEq, Eq, Structural, PartialOrd, Ord, Hash)]
pub struct NodeIndex<Ix = DefaultIndex>(pub Ix);

impl IndexType for NodeIndex {
    fn new(x: usize) -> (r: NodeIndex)
        ensures
            r == NodeIndex(x as u16),
    {
        NodeIndex(<u16 as IndexType>::new(x))
    }

    fn index(&self) -> (r: usize)
        ensures
            r == self.0,
    {
        self.0.index()
    }
}

/// Identifies a port by position.
#[derive(Copy, Clone, Default, PartialEq, Eq, Structural, PartialOrd, Ord, Hash)]
pub struct PortIndex<Ix = DefaultIndex>(pub Ix);

impl IndexType for PortIndex {
    fn new(x: usize) -> (r: PortIndex)
        ensures
            r == PortIndex(x as u16),
    {
        PortIndex(<u16 as IndexType>::new(x))
    }

    fn index(&self) -> (r: usize)
        ensures
            r == self.0,
    {
        self.0.index()
    }
}

/// Identifies an edge by position.
#[derive(Copy, Clone, Default, PartialEq, Eq, Structural, PartialOrd, Ord, Hash)]
pub struct EdgeIndex<Ix = DefaultIndex>(pub Ix);

impl IndexType for EdgeIndex {
    fn new(x: usize) -> (r: EdgeIndex)
        ensures
            r == EdgeIndex(x as u16),
    {
        EdgeIndex(<u16 as IndexType>::new(x))
    }

    fn index(&self) -> (r: usize)
        ensures
            r == self.0,
    {
        self.0.index()
    }
}

} // verus!
