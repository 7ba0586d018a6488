use std::io::Write;

use flate2::write::ZlibEncoder;
use flate2::Compression;
use osmflat::blob::blob_data;
use osmflat::builder::ArchiveBuilder;
use osmflat::compile::Error;
use osmflat::ids::IdTableBuilder;
use osmflat::osm::{Header, Osm, Tag};
use osmflat::osmpbf::{BlockIndex, BlockType, PrimitiveBlock, PrimitiveGroup, Way};
use osmflat::plan::plan_blocks;
use osmflat::tags::{get_tag, tags};

fn archive(stringtable: &[u8], pairs: &[(u64, u64)]) -> Osm {
    Osm {
        header: Header::default(),
        nodes: vec![],
        ways: vec![],
        relations: vec![],
        tags: pairs.iter().map(|&(k, v)| Tag { key_idx: k, value_idx: v }).collect(),
        tags_index: (0..pairs.len() as u64).collect(),
        nodes_index: vec![],
        relation_members: vec![],
        stringtable: stringtable.to_vec(),
        ids: None,
    }
}

#[test]
fn tags_gives_one_result_per_row() {
    let osm = archive(b"name\0ok\0bad\xff\0", &[(0, 5), (0, 8)]);
    let items = tags(&osm, 0..2);
    assert_eq!(items.len(), 2);
    assert_eq!(items[0].as_ref().ok(), Some(&("name", "ok")));
    assert!(items[1].is_err());
    assert!(get_tag(&osm, 0..2, b"name").unwrap() == Some("ok"));
}

#[test]
fn find_is_none_beyond_32_bits() {
    let mut b = IdTableBuilder::new();
    b.insert(1);
    b.skip(u32::MAX);
    b.skip(1);
    b.insert(2);
    let t = b.finalize();
    assert_eq!(t.find(1), Some(0));
    assert_eq!(t.get(2), Some(1 << 32 | 1));
    assert_eq!(t.find(2), None);
}

#[test]
fn mismatched_resolution_is_an_internal_error() {
    let mut b = ArchiveBuilder::new(false);
    let block = PrimitiveBlock {
        stringtable: vec![vec![]],
        primitivegroup: vec![PrimitiveGroup { dense: None, ways: vec![Way { id: 1, keys: vec![], vals: vec![], refs: vec![1, 1] }], relations: vec![] }],
        granularity: None,
        lat_offset: None,
        lon_offset: None,
    };
    assert_eq!(b.add_ways(&block, &[Some(0)]), Err(Error::Internal));
    assert_eq!(b.add_ways(&block, &[Some(0), None]), Ok(()));
}

#[test]
fn blob_payloads() {
    assert_eq!(blob_data(Some(b"abc".to_vec()), None, None), Ok(b"abc".to_vec()));
    assert_eq!(blob_data(Some(b"abc".to_vec()), Some(3), Some(vec![1])), Ok(b"abc".to_vec()));
    assert_eq!(blob_data(Some(b"abc".to_vec()), Some(4), None), Err(Error::BlobSize));
    assert_eq!(blob_data(None, None, None), Err(Error::UnknownCompression));
    assert_eq!(blob_data(None, None, Some(vec![1, 2, 3])), Err(Error::InvalidBlock));
    let mut e = ZlibEncoder::new(Vec::new(), Compression::default());
    e.write_all(b"hello, blob").unwrap();
    let z = e.finish().unwrap();
    assert_eq!(blob_data(None, Some(11), Some(z)), Ok(b"hello, blob".to_vec()));
}

#[test]
fn phases_are_in_file_order() {
    let blk = |t: BlockType, start: usize| BlockIndex { block_type: t, blob_start: start, blob_len: 1, granularity: None };
    let index = vec![
        blk(BlockType::Ways, 30),
        blk(BlockType::DenseNodes, 20),
        blk(BlockType::Ways, 10),
        blk(BlockType::Header, 0),
        blk(BlockType::Ways, 20),
    ];
    let plan = plan_blocks(&index).unwrap();
    let starts: Vec<usize> = plan.ways.iter().map(|b| b.blob_start).collect();
    assert_eq!(starts, vec![10, 20, 30]);
    assert_eq!(plan.dense_nodes.len(), 1);
    assert_eq!(plan.header.blob_start, 0);
}
