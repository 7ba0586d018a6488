//! Counts of what a compile converted and of references it could not resolve.
use vstd::prelude::*;

verus! {

#[derive(Clone, Copy, PartialEq, Eq, Structural, Debug, Default)]
pub struct Stats {
    pub num_nodes: usize,
    pub num_ways: usize,
    pub num_relations: usize,
    pub num_unresolved_node_ids: usize,
    pub num_unresolved_way_ids: usize,
    pub num_unresolved_rel_ids: usize,
}

impl Stats {
    /// All counts zero.
    pub open spec fn new_spec() -> Stats {
        Stats {
            num_nodes: 0,
            num_ways: 0,
            num_relations: 0,
            num_unresolved_node_ids: 0,
            num_unresolved_way_ids: 0,
            num_unresolved_rel_ids: 0,
        }
    }

    /// All counts zero.
    pub fn new() -> (r: Stats)
        ensures
            r == Stats::new_spec(),
    {
        Stats {
            num_nodes: 0,
            num_ways: 0,
            num_relations: 0,
            num_unresolved_node_ids: 0,
            num_unresolved_way_ids: 0,
            num_unresolved_rel_ids: 0,
        }
    }

    /// Whether adding `other` keeps every count within `usize`.
    pub open spec fn can_add(&self, other: Stats) -> bool {
        &&& self.num_nodes + other.num_nodes <= usize::MAX
        &&& self.num_ways + other.num_ways <= usize::MAX
        &&& self.num_relations + other.num_relations <= usize::MAX
        &&& self.num_unresolved_node_ids + other.num_unresolved_node_ids <= usize::MAX
        &&& self.num_unresolved_way_ids + other.num_unresolved_way_ids <= usize::MAX
        &&& self.num_unresolved_rel_ids + other.num_unresolved_rel_ids <= usize::MAX
    }

    /// Adds the counts of `other`, field by field.
    pub fn add_assign(&mut self, other: Stats)
        requires
            old(self).can_add(other),
        ensures
            final(self).num_nodes == old(self).num_nodes + other.num_nodes,
            final(self).num_ways == old(self).num_ways + other.num_ways,
            final(self).num_relations == old(self).num_relations + other.num_relations,
            final(self).num_unresolved_node_ids == old(self).num_unresolved_node_ids + other.num_unresolved_node_ids,
            final(self).num_unresolved_way_ids == old(self).num_unresolved_way_ids + other.num_unresolved_way_ids,
            final(self).num_unresolved_rel_ids == old(self).num_unresolved_rel_ids + other.num_unresolved_rel_ids,
    {
        self.num_nodes = self.num_nodes + other.num_nodes;
        self.num_ways = self.num_ways + other.num_ways;
        self.num_relations = self.num_relations + other.num_relations;
        self.num_unresolved_node_ids = self.num_unresolved_node_ids + other.num_unresolved_node_ids;
        self.num_unresolved_way_ids = self.num_unresolved_way_ids + other.num_unresolved_way_ids;
        self.num_unresolved_rel_ids = self.num_unresolved_rel_ids + other.num_unresolved_rel_ids;
    }
}

} // verus!
