use osmflat::builder::ArchiveBuilder;
use osmflat::compile::{resolve_ways, rescale, serialize_dense_nodes, serialize_relations, Error};
use osmflat::ids::{IdTable, IdTableBuilder};
use osmflat::osm::{Osm, RelationMember};
use osmflat::osmpbf::{
    BlockIndex, BlockType, DenseNodes, HeaderBBox, HeaderBlock, PrimitiveBlock, PrimitiveGroup, Relation, Way,
};
use osmflat::plan::{gcd, plan_blocks, serialize_header};
use osmflat::stats::Stats;
use osmflat::strings::StringTable;
use osmflat::tags::{find_tag, has_tag, iter_tags, TagSerializer};

fn strings(s: &[&str]) -> Vec<Vec<u8>> {
    s.iter().map(|x| x.as_bytes().to_vec()).collect()
}

fn dense_block(table: &[&str], granularity: Option<i32>, dense: DenseNodes) -> PrimitiveBlock {
    PrimitiveBlock {
        stringtable: strings(table),
        primitivegroup: vec![PrimitiveGroup { dense: Some(dense), ways: vec![], relations: vec![] }],
        granularity,
        lat_offset: None,
        lon_offset: None,
    }
}

fn way_block(table: &[&str], ways: Vec<Way>) -> PrimitiveBlock {
    PrimitiveBlock {
        stringtable: strings(table),
        primitivegroup: vec![PrimitiveGroup { dense: None, ways, relations: vec![] }],
        granularity: None,
        lat_offset: None,
        lon_offset: None,
    }
}

fn relation_block(table: &[&str], relations: Vec<Relation>) -> PrimitiveBlock {
    PrimitiveBlock {
        stringtable: strings(table),
        primitivegroup: vec![PrimitiveGroup { dense: None, ways: vec![], relations }],
        granularity: None,
        lat_offset: None,
        lon_offset: None,
    }
}

fn compile(dense: &[PrimitiveBlock], ways: &[PrimitiveBlock], relations: &[PrimitiveBlock], granularity: i32) -> (Osm, Stats) {
    let mut b = ArchiveBuilder::new(true);
    let header = HeaderBlock {
        bbox: None,
        source: None,
        osmosis_replication_timestamp: None,
        osmosis_replication_sequence_number: None,
        osmosis_replication_base_url: None,
    };
    b.set_header(&header, 1_000_000_000 / granularity).unwrap();
    for blk in dense {
        b.add_dense_nodes(blk, granularity).unwrap();
    }
    let nodes = b.finish_nodes();
    for blk in ways {
        let (resolved, stats) = resolve_ways(blk, &nodes);
        b.add_stats(stats);
        b.add_ways(blk, &resolved).unwrap();
    }
    let ways_table = b.finish_ways();
    for blk in relations {
        b.index_relations(blk).unwrap();
    }
    let relations_table = b.build_relations_index();
    for blk in relations {
        b.add_relations(blk, &nodes, &ways_table, &relations_table).unwrap();
    }
    b.finish()
}

fn two_node_way() -> (Osm, Stats) {
    let nodes = dense_block(
        &[""],
        Some(100),
        DenseNodes { id: vec![1, 1], lat: vec![10_000_000, 20_000_000], lon: vec![20_000_000, 20_000_000], keys_vals: vec![] },
    );
    let ways = way_block(
        &["", "highway", "primary"],
        vec![Way { id: 10, keys: vec![1], vals: vec![2], refs: vec![1, 1] }],
    );
    compile(&[nodes], &[ways], &[], 100)
}

fn count(haystack: &[u8], needle: &[u8]) -> usize {
    haystack.windows(needle.len()).filter(|w| *w == needle).count()
}

#[test]
fn scenario_two_node_way() {
    let (osm, stats) = two_node_way();
    assert_eq!(osm.nodes.len(), 3);
    assert_eq!(osm.ways.len(), 2);
    assert_eq!(osm.nodes_index, vec![Some(0), Some(1)]);
    assert_eq!(osm.tags.len(), 1);
    assert_eq!(count(&osm.stringtable, b"highway\0"), 1);
    assert_eq!(count(&osm.stringtable, b"primary\0"), 1);
    assert_eq!(osm.nodes[0].lat, 10_000_000);
    assert_eq!(osm.nodes[1].lat, 30_000_000);
    assert_eq!(osm.nodes[1].lon, 40_000_000);
    assert_eq!(osm.ways[0].ref_first_idx, 0);
    assert_eq!(osm.ways[1].ref_first_idx, 2);
    assert_eq!(stats.num_nodes, 2);
    assert_eq!(stats.num_ways, 1);
    assert_eq!(stats.num_unresolved_node_ids, 0);
    assert_eq!(osm.header.coord_scale, 10_000_000);
}

#[test]
fn scenario_tag_deduplication() {
    let nodes = dense_block(
        &["", "amenity", "pub"],
        Some(100),
        DenseNodes { id: vec![1, 1], lat: vec![0, 0], lon: vec![0, 0], keys_vals: vec![1, 2, 0, 1, 2, 0] },
    );
    let (osm, _) = compile(&[nodes], &[], &[], 100);
    assert_eq!(osm.tags.len(), 1);
    assert_eq!(osm.tags_index, vec![0, 0]);
    assert_eq!(osm.nodes[0].tag_first_idx, 0);
    assert_eq!(osm.nodes[1].tag_first_idx, 1);
    assert_eq!(osm.nodes[2].tag_first_idx, 2);
}

#[test]
fn scenario_unresolved_way() {
    let nodes = dense_block(&[""], Some(100), DenseNodes { id: vec![1], lat: vec![0], lon: vec![0], keys_vals: vec![] });
    let ways = way_block(&[""], vec![Way { id: 10, keys: vec![], vals: vec![], refs: vec![999] }]);
    let (osm, stats) = compile(&[nodes], &[ways], &[], 100);
    assert_eq!(osm.nodes_index, vec![None]);
    assert_eq!(stats.num_unresolved_node_ids, 1);
}

#[test]
fn scenario_multi_granularity() {
    let blocks = vec![
        BlockIndex { block_type: BlockType::Header, blob_start: 0, blob_len: 1, granularity: None },
        BlockIndex { block_type: BlockType::DenseNodes, blob_start: 1, blob_len: 1, granularity: Some(100) },
        BlockIndex { block_type: BlockType::DenseNodes, blob_start: 2, blob_len: 1, granularity: Some(1000) },
    ];
    let plan = plan_blocks(&blocks).unwrap();
    assert_eq!(plan.granularity, 100);
    assert_eq!(plan.coord_scale, 10_000_000);
    assert_eq!(plan.dense_nodes.len(), 2);
    let a = dense_block(&[""], Some(100), DenseNodes { id: vec![1], lat: vec![12_345_678], lon: vec![-2_345_678], keys_vals: vec![] });
    let b = dense_block(&[""], Some(1000), DenseNodes { id: vec![2], lat: vec![1_234_567], lon: vec![-234_567], keys_vals: vec![] });
    let (osm, _) = compile(&[a, b], &[], &[], plan.granularity);
    let scale = osm.header.coord_scale as f64;
    let sources = [(1_234_567_800_i64, -234_567_800_i64), (1_234_567_000, -234_567_000)];
    for (node, (lat, lon)) in osm.nodes.iter().zip(sources.iter()) {
        let got_lat = node.lat as f64 / scale;
        let want_lat = *lat as f64 / 1e9;
        assert!((got_lat - want_lat).abs() <= f64::EPSILON * want_lat.abs());
        let got_lon = node.lon as f64 / scale;
        let want_lon = *lon as f64 / 1e9;
        assert!((got_lon - want_lon).abs() <= f64::EPSILON * want_lon.abs());
    }
}

#[test]
fn scenario_relation_forward_reference() {
    let a = relation_block(
        &["", "inner"],
        vec![Relation { id: 100, keys: vec![], vals: vec![], roles_sid: vec![1], memids: vec![101], types: vec![2] }],
    );
    let b = relation_block(&[""], vec![Relation { id: 101, keys: vec![], vals: vec![], roles_sid: vec![], memids: vec![], types: vec![] }]);
    let (osm, stats) = compile(&[], &[], &[a, b], 100);
    assert_eq!(osm.relation_members.len(), 2);
    match osm.relation_members[0][0] {
        RelationMember::RelationMember { relation_idx, .. } => assert_eq!(relation_idx, Some(1)),
        _ => panic!("expected a relation member"),
    }
    assert_eq!(stats.num_unresolved_rel_ids, 0);
    assert_eq!(stats.num_relations, 2);
}

#[test]
fn scenario_tag_lookup_api() {
    let (osm, _) = two_node_way();
    let range = osm.ways[0].tag_first_idx..osm.ways[1].tag_first_idx;
    assert!(has_tag(&osm, range.clone(), b"highway", b"primary"));
    assert!(!has_tag(&osm, range.clone(), b"highway", b"secondary"));
    assert_eq!(find_tag(&osm, range.clone(), b"name"), None);
    assert_eq!(find_tag(&osm, range, b"highway"), Some(&b"primary"[..]));
}

#[test]
fn empty_tag_list_yields_no_pairs() {
    let (osm, _) = two_node_way();
    assert_eq!(osm.nodes[0].tag_first_idx, osm.nodes[1].tag_first_idx);
    let range = osm.nodes[0].tag_first_idx..osm.nodes[1].tag_first_idx;
    assert_eq!(iter_tags(&osm, range).len(), 0);
}

#[test]
fn ways_with_zero_or_one_reference() {
    let nodes = dense_block(&[""], Some(100), DenseNodes { id: vec![5], lat: vec![0], lon: vec![0], keys_vals: vec![] });
    let ways = way_block(
        &[""],
        vec![
            Way { id: 1, keys: vec![], vals: vec![], refs: vec![] },
            Way { id: 2, keys: vec![], vals: vec![], refs: vec![5] },
        ],
    );
    let (osm, _) = compile(&[nodes], &[ways], &[], 100);
    let firsts: Vec<u64> = osm.ways.iter().map(|w| w.ref_first_idx).collect();
    assert_eq!(firsts, vec![0, 0, 1]);
    assert_eq!(osm.nodes_index, vec![Some(0)]);
}

#[test]
fn ids_are_kept_in_archive_order() {
    let (osm, _) = two_node_way();
    let ids = osm.ids.unwrap();
    assert_eq!(ids.nodes, vec![1, 2]);
    assert_eq!(ids.ways, vec![10]);
    let mut builder = IdTableBuilder::new();
    for x in ids.nodes.iter() {
        builder.insert(*x);
    }
    let table: IdTable = builder.build();
    assert_eq!(ids.nodes[table.get(2).unwrap() as usize], 2);
}

#[test]
fn tag_ranges_never_decrease() {
    let nodes = dense_block(
        &["", "k", "v"],
        Some(100),
        DenseNodes { id: vec![1, 1, 1], lat: vec![0, 0, 0], lon: vec![0, 0, 0], keys_vals: vec![0, 1, 2, 1, 1, 0, 0] },
    );
    let (osm, _) = compile(&[nodes], &[], &[], 100);
    let firsts: Vec<u64> = osm.nodes.iter().map(|n| n.tag_first_idx).collect();
    assert_eq!(firsts, vec![0, 0, 2, 2]);
    assert_eq!(osm.tags.len(), 2);
}

#[test]
fn nodes_after_the_tag_lists_have_no_tags() {
    let nodes = dense_block(
        &["", "k", "v"],
        Some(100),
        DenseNodes { id: vec![1, 1], lat: vec![0, 0], lon: vec![0, 0], keys_vals: vec![1, 2, 0] },
    );
    let (osm, _) = compile(&[nodes], &[], &[], 100);
    let firsts: Vec<u64> = osm.nodes.iter().map(|n| n.tag_first_idx).collect();
    assert_eq!(firsts, vec![0, 1, 1]);
}

#[test]
fn malformed_dense_block_is_rejected() {
    let mut nodes = Vec::new();
    let mut ids = Some(Vec::new());
    let mut table = IdTableBuilder::new();
    let mut st = StringTable::new();
    let mut tags = TagSerializer::new();
    let bad_kv = dense_block(&["", "k"], Some(100), DenseNodes { id: vec![1], lat: vec![0], lon: vec![0], keys_vals: vec![1, 5, 0] });
    let r = serialize_dense_nodes(&bad_kv, 100, &mut nodes, &mut ids, &mut table, &mut st, &mut tags);
    assert_eq!(r, Err(Error::InvalidBlock));
    let bad_len = dense_block(&[""], Some(100), DenseNodes { id: vec![1, 2], lat: vec![0], lon: vec![0, 0], keys_vals: vec![] });
    let r = serialize_dense_nodes(&bad_len, 100, &mut nodes, &mut ids, &mut table, &mut st, &mut tags);
    assert_eq!(r, Err(Error::InvalidBlock));
    let unterminated = dense_block(&["", "k"], Some(100), DenseNodes { id: vec![1], lat: vec![0], lon: vec![0], keys_vals: vec![1, 1] });
    let r = serialize_dense_nodes(&unterminated, 100, &mut nodes, &mut ids, &mut table, &mut st, &mut tags);
    assert_eq!(r, Err(Error::InvalidBlock));
    assert!(nodes.is_empty());
    assert_eq!(table.len(), 0);
    assert_eq!(st.next_index(), 0);
}

#[test]
fn non_utf8_block_is_rejected() {
    let mut nodes = Vec::new();
    let mut ids = None;
    let mut table = IdTableBuilder::new();
    let mut st = StringTable::new();
    let mut tags = TagSerializer::new();
    let mut block = dense_block(&[""], Some(100), DenseNodes { id: vec![1], lat: vec![0], lon: vec![0], keys_vals: vec![] });
    block.stringtable.push(vec![0xc3]);
    let r = serialize_dense_nodes(&block, 100, &mut nodes, &mut ids, &mut table, &mut st, &mut tags);
    assert_eq!(r, Err(Error::NonUtf8String));
    assert!(nodes.is_empty());
}

#[test]
fn invalid_relation_member_type_is_rejected() {
    let empty = IdTableBuilder::new().build();
    let mut st = StringTable::new();
    let mut tags = TagSerializer::new();
    let mut rels = Vec::new();
    let mut ids = None;
    let mut members = Vec::new();
    let block = relation_block(&["", "r"], vec![Relation { id: 1, keys: vec![], vals: vec![], roles_sid: vec![1], memids: vec![3], types: vec![7] }]);
    let r = serialize_relations(&block, &empty, &empty, &empty, &mut st, &mut rels, &mut ids, &mut members, &mut tags);
    assert_eq!(r, Err(Error::InvalidBlock));
    assert!(rels.is_empty() && members.is_empty());
}

#[test]
fn relation_members_resolve_by_kind() {
    let nodes = dense_block(&[""], Some(100), DenseNodes { id: vec![7], lat: vec![0], lon: vec![0], keys_vals: vec![] });
    let ways = way_block(&[""], vec![Way { id: 8, keys: vec![], vals: vec![], refs: vec![7] }]);
    let rels = relation_block(
        &["", "outer", "type", "multipolygon"],
        vec![Relation { id: 9, keys: vec![2], vals: vec![3], roles_sid: vec![1, 1, 0], memids: vec![7, 1, 1], types: vec![0, 1, 0] }],
    );
    let (osm, stats) = compile(&[nodes], &[ways], &[rels], 100);
    let m = &osm.relation_members[0];
    assert_eq!(m.len(), 3);
    assert!(matches!(m[0], RelationMember::NodeMember { node_idx: Some(0), .. }));
    assert!(matches!(m[1], RelationMember::WayMember { way_idx: Some(0), .. }));
    assert!(matches!(m[2], RelationMember::NodeMember { node_idx: None, .. }));
    assert_eq!(stats.num_unresolved_node_ids, 1);
    let range = osm.relations[0].tag_first_idx..osm.relations[1].tag_first_idx;
    assert_eq!(find_tag(&osm, range, b"type"), Some(&b"multipolygon"[..]));
}

#[test]
fn planning_errors() {
    let header = BlockIndex { block_type: BlockType::Header, blob_start: 0, blob_len: 1, granularity: None };
    let nodes = BlockIndex { block_type: BlockType::Nodes, blob_start: 1, blob_len: 1, granularity: None };
    let bad = BlockIndex { block_type: BlockType::DenseNodes, blob_start: 2, blob_len: 1, granularity: Some(0) };
    assert!(matches!(plan_blocks(&vec![header, nodes]), Err(Error::NodesBlock)));
    assert!(matches!(plan_blocks(&vec![header, bad]), Err(Error::InvalidGranularity)));
    assert!(matches!(plan_blocks(&vec![]), Err(Error::HeaderCount(0))));
    assert!(matches!(plan_blocks(&vec![header, header]), Err(Error::HeaderCount(2))));
    let plan = plan_blocks(&vec![header]).unwrap();
    assert_eq!(plan.granularity, 1_000_000_000);
    assert_eq!(plan.coord_scale, 1);
}

#[test]
fn gcd_values() {
    assert_eq!(gcd(1_000_000_000, 100), 100);
    assert_eq!(gcd(100, 1000), 100);
    assert_eq!(gcd(3, 5), 1);
    assert_eq!(gcd(1, 100), 1);
    assert_eq!(gcd(12, 18), 6);
}

#[test]
fn rescale_values() {
    assert_eq!(rescale(0, 100, 12_345, 100), 12_345);
    assert_eq!(rescale(50, 1000, 7, 100), 70);
    assert_eq!(rescale(0, 100, -3, 200), -1);
    assert_eq!(rescale(-150, 1, 0, 100), -1);
}

#[test]
fn header_row() {
    let mut st = StringTable::new();
    let hb = HeaderBlock {
        bbox: Some(HeaderBBox { left: -1_000_000_150, right: 2_000_000_000, top: 3_000_000_000, bottom: 0 }),
        source: Some(b"test".to_vec()),
        osmosis_replication_timestamp: Some(42),
        osmosis_replication_sequence_number: None,
        osmosis_replication_base_url: Some(b"http://example.org".to_vec()),
    };
    let h = serialize_header(&hb, 10_000_000, &mut st).unwrap();
    assert_eq!(h.coord_scale, 10_000_000);
    assert_eq!(h.bbox_left, -10_000_001);
    assert_eq!(h.bbox_right, 20_000_000);
    assert_eq!(h.bbox_top, 30_000_000);
    assert_eq!(h.writingprogram_idx, 0);
    assert_eq!(h.source_idx, 9);
    assert_eq!(h.replication_timestamp, 42);
    assert_eq!(h.replication_sequence_number, 0);
    assert_eq!(h.replication_base_url_idx, 14);
    assert_eq!(st.into_bytes(), b"osmflatc\0test\0http://example.org\0");
}

fn starts_string(pool: &[u8], offset: u64) -> bool {
    offset == 0 || (offset as usize <= pool.len() && pool[offset as usize - 1] == 0)
}

#[test]
fn stored_offsets_start_strings() {
    let nodes = dense_block(
        &["", "name", "Ye Olde Pub", "amenity", "pub"],
        Some(100),
        DenseNodes { id: vec![7, 1], lat: vec![0, 0], lon: vec![0, 0], keys_vals: vec![1, 2, 3, 4, 0, 3, 4, 0] },
    );
    let ways = way_block(&["", "highway", "residential"], vec![Way { id: 8, keys: vec![1], vals: vec![2], refs: vec![7, 1] }]);
    let rels = relation_block(
        &["", "outer", "type", "multipolygon"],
        vec![Relation { id: 9, keys: vec![2], vals: vec![3], roles_sid: vec![1], memids: vec![8], types: vec![1] }],
    );
    let (osm, stats) = compile(&[nodes], &[ways], &[rels], 100);
    assert_eq!(stats.num_unresolved_node_ids + stats.num_unresolved_way_ids + stats.num_unresolved_rel_ids, 0);
    for t in &osm.tags {
        assert!(starts_string(&osm.stringtable, t.key_idx));
        assert!(starts_string(&osm.stringtable, t.value_idx));
    }
    for members in &osm.relation_members {
        for m in members {
            let role = match *m {
                RelationMember::NodeMember { role_idx, .. } => role_idx,
                RelationMember::WayMember { role_idx, .. } => role_idx,
                RelationMember::RelationMember { role_idx, .. } => role_idx,
            };
            assert!(starts_string(&osm.stringtable, role));
        }
    }
    let mut pairs: Vec<(u64, u64)> = osm.tags.iter().map(|t| (t.key_idx, t.value_idx)).collect();
    let n = pairs.len();
    pairs.sort();
    pairs.dedup();
    assert_eq!(pairs.len(), n);
    assert_eq!(osm.tags.len(), 4);
    assert_eq!(osm.tags_index.len(), 5);
}
