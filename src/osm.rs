//! The rows of a compiled archive, held in memory as columns.
use vstd::prelude::*;

verus! {

/// The single header row.
#[derive(Clone, Copy, PartialEq, Eq, Structural, Debug, Default)]
pub struct Header {
    pub coord_scale: i32,
    pub bbox_left: i32,
    pub bbox_right: i32,
    pub bbox_top: i32,
    pub bbox_bottom: i32,
    pub writingprogram_idx: u64,
    pub source_idx: u64,
    pub replication_timestamp: i64,
    pub replication_sequence_number: i64,
    pub replication_base_url_idx: u64,
}

/// A node: scaled coordinates and the start of its tag range.
#[derive(Clone, Copy, PartialEq, Eq, Structural, Debug, Default)]
pub struct Node {
    pub lat: i32,
    pub lon: i32,
    pub tag_first_idx: u64,
}

/// A way: the starts of its tag range and of its node reference range.
#[derive(Clone, Copy, PartialEq, Eq, Structural, Debug, Default)]
pub struct Way {
    pub tag_first_idx: u64,
    pub ref_first_idx: u64,
}

/// A relation: the start of its tag range.
#[derive(Clone, Copy, PartialEq, Eq, Structural, Debug, Default)]
pub struct Relation {
    pub tag_first_idx: u64,
}

/// A deduplicated tag: string pool offsets of its key and value.
#[derive(Clone, Copy, PartialEq, Eq, Structural, Debug, Default)]
pub struct Tag {
    pub key_idx: u64,
    pub value_idx: u64,
}

/// One member of a relation; an absent index is a reference that did not
/// resolve.
#[derive(Clone, Copy, PartialEq, Eq, Structural, Debug)]
pub enum RelationMember {
    NodeMember { node_idx: Option<u64>, role_idx: u64 },
    WayMember { way_idx: Option<u64>, role_idx: u64 },
    RelationMember { relation_idx: Option<u64>, role_idx: u64 },
}

impl RelationMember {
    pub open spec fn role(&self) -> u64 {
        match *self {
            RelationMember::NodeMember { role_idx, .. } => role_idx,
            RelationMember::WayMember { role_idx, .. } => role_idx,
            RelationMember::RelationMember { role_idx, .. } => role_idx,
        }
    }
}

/// The OSM ids of the entities, in archive order.
pub struct Ids {
    pub nodes: Vec<u64>,
    pub ways: Vec<u64>,
    pub relations: Vec<u64>,
}

/// A compiled archive. `nodes`, `ways` and `relations` end with a sentinel
/// row that closes the ranges of the last real row.
pub struct Osm {
    pub header: Header,
    pub nodes: Vec<Node>,
    pub ways: Vec<Way>,
    pub relations: Vec<Relation>,
    pub tags: Vec<Tag>,
    pub tags_index: Vec<u64>,
    pub nodes_index: Vec<Option<u64>>,
    pub relation_members: Vec<Vec<RelationMember>>,
    pub stringtable: Vec<u8>,
    pub ids: Option<Ids>,
}

/// Range starts that never decrease and stay within `end`.
pub open spec fn ranges_ok(s: Seq<u64>, end: int) -> bool {
    &&& forall|i: int, j: int| 0 <= i <= j < s.len() ==> #[trigger] s[i] <= #[trigger] s[j]
    &&& forall|i: int| 0 <= i < s.len() ==> #[trigger] s[i] <= end
}

pub open spec fn node_firsts(s: Seq<Node>) -> Seq<u64> {
    s.map_values(|n: Node| n.tag_first_idx)
}

pub open spec fn way_tag_firsts(s: Seq<Way>) -> Seq<u64> {
    s.map_values(|w: Way| w.tag_first_idx)
}

pub open spec fn way_ref_firsts(s: Seq<Way>) -> Seq<u64> {
    s.map_values(|w: Way| w.ref_first_idx)
}

pub open spec fn relation_firsts(s: Seq<Relation>) -> Seq<u64> {
    s.map_values(|r: Relation| r.tag_first_idx)
}

impl Osm {
    /// Every entity's ranges start no later than the next entity's, and
    /// within the column they index.
    pub open spec fn ranges_wf(&self) -> bool {
        &&& ranges_ok(node_firsts(self.nodes@), self.tags_index@.len() as int)
        &&& ranges_ok(way_tag_firsts(self.ways@), self.tags_index@.len() as int)
        &&& ranges_ok(way_ref_firsts(self.ways@), self.nodes_index@.len() as int)
        &&& ranges_ok(relation_firsts(self.relations@), self.tags_index@.len() as int)
    }

    /// Every tag index row names a tag, and every tag names offsets inside
    /// the string pool: what the tag lookups need.
    pub open spec fn tags_wf(&self) -> bool {
        &&& forall|i: int| 0 <= i < self.tags_index@.len() ==> #[trigger] self.tags_index@[i] < self.tags@.len()
        &&& forall|t: int| 0 <= t < self.tags@.len() ==> {
            &&& (#[trigger] self.tags@[t]).key_idx <= self.stringtable@.len()
            &&& self.tags@[t].value_idx <= self.stringtable@.len()
        }
        &&& self.tags_index@.len() <= u64::MAX
    }

    /// The tag that tag index row `i` names.
    pub open spec fn tag_at(&self, i: int) -> Tag {
        self.tags@[self.tags_index@[i] as int]
    }
}

} // verus!
