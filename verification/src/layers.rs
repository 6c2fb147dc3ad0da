//! Layers: the vertices grouped by rank.

use vstd::prelude::*;

verus! {

/// An ordered sequence of vertex groups; group `i` holds the vertices of rank `i`.
#[derive(Debug)]
pub struct Layers {
    groups: Vec<Vec<usize>>,
}

impl View for Layers {
    type V = Seq<Seq<usize>>;

    closed spec fn view(&self) -> Seq<Seq<usize>> {
        Seq::new(self.groups@.len(), |i: int| self.groups@[i]@)
    }
}

impl Layers {
    /// Wraps the groups as they are.
    pub fn new(groups: Vec<Vec<usize>>) -> (layers: Layers)
        ensures
            layers@.len() == groups@.len(),
            forall|i: int| 0 <= i < groups@.len() ==> #[trigger] layers@[i] == groups@[i]@,
    {
        Layers { groups }
    }

    /// The groups, lowest rank first.
    pub fn groups(&self) -> (groups: &Vec<Vec<usize>>)
        ensures
            groups@.len() == self@.len(),
            forall|i: int| 0 <= i < groups@.len() ==> #[trigger] groups@[i]@ == self@[i],
    {
        &self.groups
    }
}

} // verus!
