use osmflat::compile::Error;
use osmflat::ordered::OrderedDelivery;
use osmflat::osmpbf::{ref_ids_count, BlockType, PrimitiveBlock, PrimitiveGroup, Way};

// A `PrimitiveBlock` with an empty string table (field 1) and one primitive
// group (field 2) whose first field is `first`.
fn blob(first: u8) -> Vec<u8> {
    vec![0x0a, 0x02, 0x0a, 0x00, 0x12, 0x02, (first << 3) | 2, 0x00]
}

#[test]
fn classifies_by_first_group_field() {
    assert_eq!(BlockType::from_osmdata_blob(&blob(1)), Ok(BlockType::Nodes));
    assert_eq!(BlockType::from_osmdata_blob(&blob(2)), Ok(BlockType::DenseNodes));
    assert_eq!(BlockType::from_osmdata_blob(&blob(3)), Ok(BlockType::Ways));
    assert_eq!(BlockType::from_osmdata_blob(&blob(4)), Ok(BlockType::Relations));
}

#[test]
fn changesets_are_rejected() {
    assert_eq!(BlockType::from_osmdata_blob(&blob(5)), Err(Error::Changesets));
}

#[test]
fn skips_fields_before_the_group() {
    // granularity (field 17, varint) first, then the group
    let mut b = vec![0x88, 0x01, 0x64];
    b.extend(blob(3));
    assert_eq!(BlockType::from_osmdata_blob(&b), Ok(BlockType::Ways));
}

#[test]
fn blob_without_group_is_invalid() {
    assert_eq!(BlockType::from_osmdata_blob(&[]), Err(Error::InvalidBlock));
    assert_eq!(BlockType::from_osmdata_blob(&[0x0a, 0x02, 0x0a, 0x00]), Err(Error::InvalidBlock));
}

#[test]
fn counts_way_references() {
    let block = PrimitiveBlock {
        stringtable: vec![],
        primitivegroup: vec![
            PrimitiveGroup { dense: None, ways: vec![Way { id: 1, keys: vec![], vals: vec![], refs: vec![1, 2, 3] }], relations: vec![] },
            PrimitiveGroup { dense: None, ways: vec![Way { id: 2, keys: vec![], vals: vec![], refs: vec![4] }], relations: vec![] },
        ],
        granularity: None,
        lat_offset: None,
        lon_offset: None,
    };
    assert_eq!(ref_ids_count(&block), Some(4));
}

#[test]
fn results_are_handed_out_in_input_order() {
    let mut d = OrderedDelivery::new();
    d.push(2, "c");
    d.push(1, "b");
    assert_eq!(d.pop(), None);
    d.push(0, "a");
    assert!(d.is_pending(1));
    assert_eq!(d.pop(), Some("a"));
    assert_eq!(d.pop(), Some("b"));
    assert_eq!(d.pop(), Some("c"));
    assert_eq!(d.pop(), None);
    assert_eq!(d.next(), 3);
}
