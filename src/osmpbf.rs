//! Decoded blocks of an `osm.pbf` file, and the checks that a block must
//! pass before it is serialized.
use vstd::prelude::*;
use crate::compile::Error;
use crate::protobuf::{decode_key, decode_varint, skip_field, key_of, varint_of, skip_of, lemma_key_len, lemma_varint_len};

verus! {

/// Kind of payload of a block.
#[derive(Clone, Copy, PartialEq, Eq, Structural, Debug, PartialOrd, Ord)]
pub enum BlockType {
    Header,
    Nodes,
    DenseNodes,
    Ways,
    Relations,
}

/// The field number of `PrimitiveBlock.primitivegroup`.
pub const PRIMITIVE_GROUP_TAG: u32 = 2;

/// The type of a data block: from the first field of its first primitive
/// group, found by stepping over the fields before it from position `pos`.
pub open spec fn classify(blob: Seq<u8>, pos: int) -> Result<BlockType, Error>
    decreases blob.len() - pos,
{
    if pos < 0 || pos > blob.len() {
        Err(Error::InvalidBlock)
    } else {
        let rest = blob.subrange(pos, blob.len() as int);
        match key_of(rest) {
            None => Err(Error::InvalidBlock),
            Some(k) => {
                if k.2 < 1 || k.2 > rest.len() {
                    Err(Error::InvalidBlock)
                } else if k.0 != PRIMITIVE_GROUP_TAG {
                    match skip_of(k.1, k.0, blob.subrange(pos + k.2, blob.len() as int)) {
                        None => Err(Error::InvalidBlock),
                        Some(n) => if pos + k.2 + n <= blob.len() { classify(blob, pos + k.2 + n) } else { Err(Error::InvalidBlock) },
                    }
                } else {
                    let at = pos + k.2;
                    match varint_of(blob.subrange(at, blob.len() as int)) {
                        None => Err(Error::InvalidBlock),
                        Some(v) => {
                            if at + v.1 > blob.len() {
                                Err(Error::InvalidBlock)
                            } else {
                                match key_of(blob.subrange(at + v.1, blob.len() as int)) {
                                    None => Err(Error::InvalidBlock),
                                    Some(g) => group_type(g.0),
                                }
                            }
                        }
                    }
                }
            }
        }
    }
}

/// The block type that the first field number of a primitive group stands for.
pub open spec fn group_type(tag: u32) -> Result<BlockType, Error> {
    if tag == 1 {
        Ok(BlockType::Nodes)
    } else if tag == 2 {
        Ok(BlockType::DenseNodes)
    } else if tag == 3 {
        Ok(BlockType::Ways)
    } else if tag == 4 {
        Ok(BlockType::Relations)
    } else if tag == 5 {
        Err(Error::Changesets)
    } else {
        Err(Error::InvalidBlock)
    }
}

impl BlockType {
    /// Classifies a decompressed `PrimitiveBlock` by the first field of its
    /// first primitive group, without decoding it: all groups of a block
    /// hold the same kind of entity.
    pub fn from_osmdata_blob(blob: &[u8]) -> (r: Result<BlockType, Error>)
        ensures
            r == classify(blob@, 0),
    {
        let len = blob.len();
        let mut pos: usize = 0;
        loop
            invariant
                len == blob@.len(),
                pos <= len,
                classify(blob@, 0) == classify(blob@, pos as int),
            decreases len - pos,
        {
            let rest = vstd::slice::slice_subrange(blob, pos, len);
            let (tag, wire_type, n) = match decode_key(rest) {
                Some(k) => k,
                None => {
                    return Err(Error::InvalidBlock);
                },
            };
            proof {
                lemma_key_len(rest@);
            }
            let at = pos + n;
            let after_key = vstd::slice::slice_subrange(blob, at, len);
            proof {
                assert(rest@ == blob@.subrange(pos as int, blob@.len() as int));
                assert(after_key@ == blob@.subrange(at as int, blob@.len() as int));
            }
            if tag != PRIMITIVE_GROUP_TAG {
                match skip_field(wire_type, tag, after_key) {
                    Some(skip) => {
                        pos = at + skip;
                    },
                    None => {
                        return Err(Error::InvalidBlock);
                    },
                }
            } else {
                let (_, m) = match decode_varint(after_key) {
                    Some(v) => v,
                    None => {
                        return Err(Error::InvalidBlock);
                    },
                };
                proof {
                    lemma_varint_len(after_key@, 0, 0);
                }
                let group = vstd::slice::slice_subrange(blob, at + m, len);
                assert(group@ == blob@.subrange(at + m, blob@.len() as int));
                let (group_tag, _, _) = match decode_key(group) {
                    Some(k) => k,
                    None => {
                        return Err(Error::InvalidBlock);
                    },
                };
                return if group_tag == 1 {
                    Ok(BlockType::Nodes)
                } else if group_tag == 2 {
                    Ok(BlockType::DenseNodes)
                } else if group_tag == 3 {
                    Ok(BlockType::Ways)
                } else if group_tag == 4 {
                    Ok(BlockType::Relations)
                } else if group_tag == 5 {
                    Err(Error::Changesets)
                } else {
                    Err(Error::InvalidBlock)
                };
            }
        }
    }
}

/// Where a block stands in the file, and what it holds.
#[derive(Clone, Copy, PartialEq, Eq, Structural, Debug)]
pub struct BlockIndex {
    pub block_type: BlockType,
    pub blob_start: usize,
    pub blob_len: usize,
    /// The coordinate granularity of a dense nodes block, where it sets one.
    pub granularity: Option<i32>,
}

/// Bounding box of the header, in nanodegrees.
pub struct HeaderBBox {
    pub left: i64,
    pub right: i64,
    pub top: i64,
    pub bottom: i64,
}

/// The fields of the file header that the archive keeps.
pub struct HeaderBlock {
    pub bbox: Option<HeaderBBox>,
    pub source: Option<Vec<u8>>,
    pub osmosis_replication_timestamp: Option<i64>,
    pub osmosis_replication_sequence_number: Option<i64>,
    pub osmosis_replication_base_url: Option<Vec<u8>>,
}

/// Delta-coded nodes; `keys_vals` holds each node's `(key, value)` string
/// indexes, each list ended by a `0`.
pub struct DenseNodes {
    pub id: Vec<i64>,
    pub lat: Vec<i64>,
    pub lon: Vec<i64>,
    pub keys_vals: Vec<i32>,
}

/// A way; `refs` holds delta-coded node ids.
pub struct Way {
    pub id: i64,
    pub keys: Vec<u32>,
    pub vals: Vec<u32>,
    pub refs: Vec<i64>,
}

/// A relation; `memids` holds delta-coded member ids, `types` their kinds
/// (`0` node, `1` way, `2` relation).
pub struct Relation {
    pub id: i64,
    pub keys: Vec<u32>,
    pub vals: Vec<u32>,
    pub roles_sid: Vec<i32>,
    pub memids: Vec<i64>,
    pub types: Vec<i32>,
}

pub struct PrimitiveGroup {
    pub dense: Option<DenseNodes>,
    pub ways: Vec<Way>,
    pub relations: Vec<Relation>,
}

/// A data block: its string table, its groups and its coordinate frame.
pub struct PrimitiveBlock {
    pub stringtable: Vec<Vec<u8>>,
    pub primitivegroup: Vec<PrimitiveGroup>,
    pub granularity: Option<i32>,
    pub lat_offset: Option<i64>,
    pub lon_offset: Option<i64>,
}

/// Sum of the first `n` deltas, wrapping as 64-bit integers.
pub open spec fn delta_sum(d: Seq<i64>, n: int) -> i64
    decreases n,
{
    if n <= 0 {
        0
    } else {
        delta_sum(d, n - 1).wrapping_add(d[n - 1])
    }
}

/// One node's tag list from position `pos` of `kv`, up to and including its
/// `0`, with the position after it. `None` where the list runs past the end
/// or names a string outside `0..ns`.
pub open spec fn node_tag_list(kv: Seq<i32>, pos: int, ns: int) -> Option<(Seq<(int, int)>, int)>
    decreases kv.len() - pos,
{
    if pos < 0 || pos >= kv.len() {
        None
    } else if kv[pos] == 0 {
        Some((Seq::empty(), pos + 1))
    } else if pos + 1 >= kv.len() || !(0 <= kv[pos] < ns) || !(0 <= kv[pos + 1] < ns) {
        None
    } else {
        match node_tag_list(kv, pos + 2, ns) {
            Some(r) => Some((seq![(kv[pos] as int, kv[pos + 1] as int)] + r.0, r.1)),
            None => None,
        }
    }
}

/// The tag lists of `count` nodes read from position `pos` of `kv`. Nodes
/// after the end of `kv` have no tags; `kv` must be used up.
pub open spec fn node_tag_lists(kv: Seq<i32>, pos: int, count: int, ns: int) -> Option<Seq<Seq<(int, int)>>>
    decreases count,
{
    if count <= 0 {
        if pos >= kv.len() { Some(Seq::empty()) } else { None }
    } else if pos >= kv.len() {
        match node_tag_lists(kv, pos, count - 1, ns) {
            Some(ls) => Some(seq![Seq::<(int, int)>::empty()] + ls),
            None => None,
        }
    } else {
        match node_tag_list(kv, pos, ns) {
            Some(r) => match node_tag_lists(kv, r.1, count - 1, ns) {
                Some(ls) => Some(seq![r.0] + ls),
                None => None,
            },
            None => None,
        }
    }
}

/// `a / d` rounded toward zero, as integer division does.
pub open spec fn trunc_div(a: int, d: int) -> int {
    if a >= 0 { a / d } else { -((-a) / d) }
}

/// A stored coordinate: the nanodegree value `offset + gran * sum`, divided
/// by the archive's common granularity `div`, as a 32-bit integer.
pub open spec fn scaled_coord(offset: i64, gran: i32, sum: i64, div: i32) -> i32 {
    trunc_div(offset + gran * sum, div as int) as i32
}

/// Total length of the first `k` lists.
pub open spec fn lists_len<T>(lists: Seq<Seq<T>>, k: int) -> int
    decreases k,
{
    if k <= 0 { 0 } else { lists_len(lists, k - 1) + lists[k - 1].len() }
}

/// A parsed tag list ends after where it starts, within `kv`.
pub proof fn lemma_tag_list_end(kv: Seq<i32>, pos: int, ns: int)
    requires
        node_tag_list(kv, pos, ns).is_some(),
    ensures
        pos < node_tag_list(kv, pos, ns).unwrap().1 <= kv.len(),
    decreases kv.len() - pos,
{
    if kv[pos] != 0 {
        lemma_tag_list_end(kv, pos + 2, ns);
    }
}

/// Parsed tag lists number as many as the nodes.
pub proof fn lemma_tag_lists_len(kv: Seq<i32>, pos: int, count: int, ns: int)
    requires
        node_tag_lists(kv, pos, count, ns).is_some(),
        count >= 0,
    ensures
        node_tag_lists(kv, pos, count, ns).unwrap().len() == count,
    decreases count,
{
    if count > 0 {
        if pos >= kv.len() {
            lemma_tag_lists_len(kv, pos, count - 1, ns);
        } else {
            let r = node_tag_list(kv, pos, ns).unwrap();
            lemma_tag_lists_len(kv, r.1, count - 1, ns);
        }
    }
}

impl DenseNodes {
    /// The node ids: running sums of the id deltas.
    pub open spec fn ids(&self) -> Seq<u64> {
        Seq::new(self.id@.len(), |i: int| delta_sum(self.id@, i + 1) as u64)
    }

    /// The stored latitudes.
    pub open spec fn lats(&self, offset: i64, gran: i32, div: i32) -> Seq<i32> {
        Seq::new(self.id@.len(), |i: int| scaled_coord(offset, gran, delta_sum(self.lat@, i + 1), div))
    }

    /// The stored longitudes.
    pub open spec fn lons(&self, offset: i64, gran: i32, div: i32) -> Seq<i32> {
        Seq::new(self.id@.len(), |i: int| scaled_coord(offset, gran, delta_sum(self.lon@, i + 1), div))
    }

    /// The columns agree in length and the tag lists parse.
    pub open spec fn valid(&self, ns: int) -> bool {
        &&& self.lat@.len() == self.id@.len()
        &&& self.lon@.len() == self.id@.len()
        &&& node_tag_lists(self.keys_vals@, 0, self.id@.len() as int, ns).is_some()
    }

    /// Tag lists of the nodes, as string table indexes.
    pub open spec fn tag_lists(&self, ns: int) -> Seq<Seq<(int, int)>> {
        node_tag_lists(self.keys_vals@, 0, self.id@.len() as int, ns).unwrap()
    }
}

impl Way {
    /// The node ids that the way references: running sums of `refs`.
    pub open spec fn ref_ids(&self) -> Seq<u64> {
        Seq::new(self.refs@.len(), |i: int| delta_sum(self.refs@, i + 1) as u64)
    }

    /// Its tags as pairs of string table indexes.
    pub open spec fn pairs(&self) -> Seq<(int, int)> {
        Seq::new(self.keys@.len(), |i: int| (self.keys@[i] as int, self.vals@[i] as int))
    }

    /// Keys and values pair up and name strings of a table of `ns` strings.
    pub open spec fn valid(&self, ns: int) -> bool {
        &&& self.keys@.len() == self.vals@.len()
        &&& forall|i: int| 0 <= i < self.keys@.len() ==> (#[trigger] self.keys@[i]) < ns && self.vals@[i] < ns
    }
}

impl Relation {
    /// The member ids: running sums of `memids`.
    pub open spec fn member_ids(&self) -> Seq<u64> {
        Seq::new(self.memids@.len(), |i: int| delta_sum(self.memids@, i + 1) as u64)
    }

    /// Its tags as pairs of string table indexes.
    pub open spec fn pairs(&self) -> Seq<(int, int)> {
        Seq::new(self.keys@.len(), |i: int| (self.keys@[i] as int, self.vals@[i] as int))
    }

    /// Keys and values pair up, members have a role, an id and a known
    /// kind, and all strings are in a table of `ns` strings.
    pub open spec fn valid(&self, ns: int) -> bool {
        &&& self.keys@.len() == self.vals@.len()
        &&& forall|i: int| 0 <= i < self.keys@.len() ==> (#[trigger] self.keys@[i]) < ns && self.vals@[i] < ns
        &&& self.roles_sid@.len() == self.memids@.len()
        &&& self.types@.len() == self.memids@.len()
        &&& forall|i: int| 0 <= i < self.roles_sid@.len() ==> 0 <= #[trigger] self.roles_sid@[i] < ns
        &&& forall|i: int| 0 <= i < self.types@.len() ==> 0 <= #[trigger] self.types@[i] <= 2
    }
}

/// Tag lists of a sequence of relations.
pub open spec fn relation_tag_lists(rs: Seq<Relation>) -> Seq<Seq<(int, int)>> {
    rs.map_values(|r: Relation| r.pairs())
}

/// Tag lists of a sequence of ways.
pub open spec fn way_tag_lists(ws: Seq<Way>) -> Seq<Seq<(int, int)>> {
    ws.map_values(|w: Way| w.pairs())
}

/// Node reference lists of a sequence of ways.
pub open spec fn way_ref_lists(ws: Seq<Way>) -> Seq<Seq<u64>> {
    ws.map_values(|w: Way| w.ref_ids())
}

/// The node ids that the ways reference, way after way.
pub open spec fn ref_ids_all(ws: Seq<Way>) -> Seq<u64>
    decreases ws.len(),
{
    if ws.len() == 0 { Seq::empty() } else { ref_ids_all(ws.drop_last()) + ws.last().ref_ids() }
}

pub proof fn lemma_ref_ids_all_concat(a: Seq<Way>, b: Seq<Way>)
    ensures
        ref_ids_all(a + b) == ref_ids_all(a) + ref_ids_all(b),
    decreases b.len(),
{
    if b.len() == 0 {
        assert(a + b == a);
        assert(ref_ids_all(a) + ref_ids_all(b) == ref_ids_all(a));
    } else {
        lemma_ref_ids_all_concat(a, b.drop_last());
        assert((a + b).drop_last() == a + b.drop_last());
        assert((a + b).last() == b.last());
        assert(ref_ids_all(a) + ref_ids_all(b.drop_last()) + b.last().ref_ids()
            == ref_ids_all(a) + (ref_ids_all(b.drop_last()) + b.last().ref_ids()));
    }
}

/// Number of node references of the ways of a block, or `None` where it
/// exceeds `usize`.
pub fn ref_ids_count(block: &PrimitiveBlock) -> (r: Option<usize>)
    ensures
        match r {
            Some(n) => n == ref_ids_all(block.all_ways(block.primitivegroup@.len() as int)).len(),
            None => ref_ids_all(block.all_ways(block.primitivegroup@.len() as int)).len() > usize::MAX,
        },
{
    let groups = &block.primitivegroup;
    let ng = groups.len();
    let mut total: usize = 0;
    let mut g: usize = 0;
    while g < ng
        invariant
            ng == groups@.len(),
            groups == &block.primitivegroup,
            0 <= g <= ng,
            total == ref_ids_all(block.all_ways(g as int)).len(),
        decreases ng - g,
    {
        let ways = &groups[g].ways;
        let nw = ways.len();
        let mut j: usize = 0;
        proof {
            assert(ways@.take(0) =~= Seq::<Way>::empty());
            assert(block.all_ways(g as int) + ways@.take(0) == block.all_ways(g as int));
        }
        while j < nw
            invariant
                ng == groups@.len(),
                groups == &block.primitivegroup,
                0 <= g < ng,
                ways == &block.primitivegroup@[g as int].ways,
                nw == ways@.len(),
                0 <= j <= nw,
                total == ref_ids_all(block.all_ways(g as int) + ways@.take(j as int)).len(),
            decreases nw - j,
        {
            let ghost p = block.all_ways(g as int) + ways@.take(j as int);
            proof {
                assert(ways@.take(j + 1) == ways@.take(j as int).push(ways@[j as int]));
                assert(block.all_ways(g as int) + ways@.take(j + 1) == p.push(ways@[j as int]));
                assert(p.push(ways@[j as int]).drop_last() == p);
                assert(ways@.take(j + 1) + ways@.skip(j + 1) == ways@);
                assert(p.push(ways@[j as int]) + ways@.skip(j + 1) == block.all_ways(g + 1));
                lemma_ref_ids_all_concat(p, seq![ways@[j as int]]);
                assert(p + seq![ways@[j as int]] == p.push(ways@[j as int]));
                lemma_way_prefix_refs(block, g as int, ng as int, p.push(ways@[j as int]), ways@.skip(j + 1));
            }
            let n = ways[j].refs.len();
            if n > usize::MAX - total {
                return None;
            }
            total = total + n;
            j = j + 1;
        }
        proof {
            assert(ways@.take(nw as int) == ways@);
        }
        g = g + 1;
    }
    Some(total)
}

/// The references of a prefix of a block's ways are no more than all of them.
proof fn lemma_way_prefix_refs(block: &PrimitiveBlock, g: int, ng: int, p: Seq<Way>, rest: Seq<Way>)
    requires
        0 <= g < ng <= block.primitivegroup@.len(),
        p + rest == block.all_ways(g + 1),
    ensures
        ref_ids_all(p).len() <= ref_ids_all(block.all_ways(ng)).len(),
{
    lemma_ref_ids_all_concat(p, rest);
    block.lemma_way_refs_grow(g + 1, ng);
}

impl PrimitiveBlock {
    /// References of the first `g` groups' ways are a prefix of those of the
    /// first `h` groups' ways.
    pub proof fn lemma_way_refs_grow(&self, g: int, h: int)
        requires
            0 <= g <= h,
        ensures
            ref_ids_all(self.all_ways(g)).len() <= ref_ids_all(self.all_ways(h)).len(),
        decreases h - g,
    {
        if g < h {
            self.lemma_way_refs_grow(g, h - 1);
            lemma_ref_ids_all_concat(self.all_ways(h - 1), self.primitivegroup@[h - 1].ways@);
        }
    }

    /// The ways of the first `g` groups, in order.
    pub open spec fn all_ways(&self, g: int) -> Seq<Way>
        decreases g,
    {
        if g <= 0 { Seq::empty() } else { self.all_ways(g - 1) + self.primitivegroup@[g - 1].ways@ }
    }

    /// The relations of the first `g` groups, in order.
    pub open spec fn all_relations(&self, g: int) -> Seq<Relation>
        decreases g,
    {
        if g <= 0 { Seq::empty() } else { self.all_relations(g - 1) + self.primitivegroup@[g - 1].relations@ }
    }

    /// Every relation is valid against the string table.
    pub open spec fn relations_valid(&self) -> bool {
        forall|g: int, j: int| 0 <= g < self.primitivegroup@.len() && 0 <= j < self.primitivegroup@[g].relations@.len()
            ==> (#[trigger] self.primitivegroup@[g].relations@[j]).valid(self.stringtable@.len() as int)
    }

    /// Every way is valid against the string table.
    pub open spec fn ways_valid(&self) -> bool {
        forall|g: int, j: int| 0 <= g < self.primitivegroup@.len() && 0 <= j < self.primitivegroup@[g].ways@.len()
            ==> (#[trigger] self.primitivegroup@[g].ways@[j]).valid(self.stringtable@.len() as int)
    }

    /// Every group holds dense nodes that are valid against the string table.
    pub open spec fn dense_valid(&self) -> bool {
        forall|g: int| 0 <= g < self.primitivegroup@.len() ==> {
            &&& (#[trigger] self.primitivegroup@[g]).dense.is_some()
            &&& self.primitivegroup@[g].dense.unwrap().valid(self.stringtable@.len() as int)
        }
    }

    /// Granularity of the block's coordinates, 100 where it sets none.
    pub open spec fn gran(&self) -> i32 {
        match self.granularity { Some(g) => g, None => 100 }
    }

    pub open spec fn lat_off(&self) -> i64 {
        match self.lat_offset { Some(o) => o, None => 0 }
    }

    pub open spec fn lon_off(&self) -> i64 {
        match self.lon_offset { Some(o) => o, None => 0 }
    }

    /// Ids of the dense nodes of the first `g` groups.
    pub open spec fn node_ids(&self, g: int) -> Seq<u64>
        decreases g,
    {
        if g <= 0 { Seq::empty() } else { self.node_ids(g - 1) + self.dense_of(g - 1).ids() }
    }

    /// Latitudes of the dense nodes of the first `g` groups.
    pub open spec fn node_lats(&self, div: i32, g: int) -> Seq<i32>
        decreases g,
    {
        if g <= 0 {
            Seq::empty()
        } else {
            self.node_lats(div, g - 1) + self.dense_of(g - 1).lats(self.lat_off(), self.gran(), div)
        }
    }

    /// Longitudes of the dense nodes of the first `g` groups.
    pub open spec fn node_lons(&self, div: i32, g: int) -> Seq<i32>
        decreases g,
    {
        if g <= 0 {
            Seq::empty()
        } else {
            self.node_lons(div, g - 1) + self.dense_of(g - 1).lons(self.lon_off(), self.gran(), div)
        }
    }

    /// Tag lists of the dense nodes of the first `g` groups.
    pub open spec fn node_tags(&self, g: int) -> Seq<Seq<(int, int)>>
        decreases g,
    {
        if g <= 0 {
            Seq::empty()
        } else {
            self.node_tags(g - 1) + self.dense_of(g - 1).tag_lists(self.stringtable@.len() as int)
        }
    }

    /// The dense nodes of group `g`.
    pub open spec fn dense_of(&self, g: int) -> DenseNodes {
        self.primitivegroup@[g].dense.unwrap()
    }

    /// Number of dense nodes in the groups before `g`.
    pub open spec fn dense_before(&self, g: int) -> int
        decreases g,
    {
        if g <= 0 {
            0
        } else {
            self.dense_before(g - 1) + self.dense_of(g - 1).id@.len()
        }
    }

    /// Number of ways in the groups before `g`.
    pub open spec fn ways_before(&self, g: int) -> int
        decreases g,
    {
        if g <= 0 {
            0
        } else {
            self.ways_before(g - 1) + self.primitivegroup@[g - 1].ways@.len()
        }
    }

    /// Number of relations in the groups before `g`.
    pub open spec fn relations_before(&self, g: int) -> int
        decreases g,
    {
        if g <= 0 {
            0
        } else {
            self.relations_before(g - 1) + self.primitivegroup@[g - 1].relations@.len()
        }
    }
}

} // verus!
