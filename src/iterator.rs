//! A cursor over a sorted snapshot of key/value pairs, run forward or backward.
use vstd::prelude::*;

verus! {

/// The order in which a cursor walks its keys.
#[derive(Debug, Clone, Copy, PartialEq, Eq)]
pub enum Direction {
    Forward,
    Backward,
}

/// A cursor over key/value pairs held in the order of its direction. It is owned by
/// the caller that asked for it and must be rewound before it is read.
pub struct DirectedUserIterator {
    direction: Direction,
    items: Vec<(Vec<u8>, Vec<u8>)>,
    pos: usize,
}

impl DirectedUserIterator {
    /// The pairs, in the order the cursor walks them.
    pub closed spec fn items(&self) -> Seq<(Seq<u8>, Seq<u8>)> {
        self.items@.map_values(|p: (Vec<u8>, Vec<u8>)| (p.0@, p.1@))
    }

    /// The position of the cursor among `items()`.
    pub closed spec fn pos(&self) -> int {
        self.pos as int
    }

    pub closed spec fn direction(&self) -> Direction {
        self.direction
    }

    /// The pairs not yet passed.
    pub open spec fn remaining(&self) -> Seq<(Seq<u8>, Seq<u8>)> {
        self.items().subrange(self.pos(), self.items().len() as int)
    }

    pub closed spec fn wf(&self) -> bool {
        self.pos <= self.items@.len()
    }

    /// A cursor over `items`, walked in the order given.
    pub fn new(direction: Direction, items: Vec<(Vec<u8>, Vec<u8>)>) -> (r: DirectedUserIterator)
        ensures
            r.wf(),
            r.direction() == direction,
            r.items() == items@.map_values(|p: (Vec<u8>, Vec<u8>)| (p.0@, p.1@)),
            r.pos() == 0,
    {
        DirectedUserIterator { direction, items, pos: 0 }
    }

    pub fn direction_of(&self) -> (r: Direction)
        ensures
            r == self.direction(),
    {
        self.direction
    }

    /// Puts the cursor on the first pair.
    pub fn rewind(&mut self)
        ensures
            final(self).wf(),
            final(self).items() == old(self).items(),
            final(self).direction() == old(self).direction(),
            final(self).pos() == 0,
    {
        self.pos = 0;
    }

    pub fn is_valid(&self) -> (r: bool)
        requires
            self.wf(),
        ensures
            r == (self.pos() < self.items().len()),
            0 <= self.pos() <= self.items().len(),
    {
        self.pos < self.items.len()
    }

    pub fn key(&self) -> (r: &[u8])
        requires
            self.wf(),
            self.pos() < self.items().len(),
        ensures
            r@ == self.items()[self.pos()].0,
    {
        self.items[self.pos].0.as_slice()
    }

    pub fn value(&self) -> (r: &[u8])
        requires
            self.wf(),
            self.pos() < self.items().len(),
        ensures
            r@ == self.items()[self.pos()].1,
    {
        self.items[self.pos].1.as_slice()
    }

    /// Moves the cursor to the next pair in its direction.
    pub fn next(&mut self)
        requires
            old(self).wf(),
            old(self).pos() < old(self).items().len(),
        ensures
            final(self).wf(),
            final(self).items() == old(self).items(),
            final(self).direction() == old(self).direction(),
            final(self).pos() == old(self).pos() + 1,
    {
        assert(self.items().len() == self.items@.len());
        let n = self.items.len();
        assert(self.pos < n);
        self.pos = self.pos + 1;
    }
}

} // verus!
