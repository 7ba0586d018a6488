use osmflat::ids::IdTableBuilder;

#[test]
fn test_mapping_of_small_ints() {
    let mut builder = IdTableBuilder::new();
    let mut data = [9, 8, 7, 4, 3, 10, 13];
    data.sort_unstable();
    for x in data.iter() {
        builder.insert(*x);
    }

    let lookup = builder.build();
    for (pos, x) in data.iter().enumerate() {
        let res = lookup.get(*x);
        assert_eq!(res, Some(pos as u64));
    }

    for x in [0, 1, 2, 5, 6, 11, 12, 14].iter() {
        let res = lookup.get(*x);
        assert_eq!(res, None);
    }
}

#[test]
fn test_mapping_of_large_ints() {
    let mut builder = IdTableBuilder::new();
    let mut data = [2, 1, 1_u64 << 33, 1_u64 << 34];
    data.sort_unstable();
    for x in data.iter() {
        builder.insert(*x);
    }

    let lookup = builder.build();
    for (pos, x) in data.iter().enumerate() {
        let res = lookup.get(*x);
        assert_eq!(res, Some(pos as u64));
    }

    for x in [0, 3, (1_u64 << 33) + 1, (1_u64 << 34) + 1, 1_u64 << 35].iter() {
        let res = lookup.get(*x);
        assert_eq!(res, None);
    }
}

#[test]
fn test_large_indices() {
    let mut builder = IdTableBuilder::new();
    let mut data = [2, 1, 1_u64 << 33, 1_u64 << 34];
    data.sort_unstable();
    for x in data.iter() {
        builder.insert(*x);
    }

    let lookup = builder.build();
    for (pos, x) in data.iter().enumerate() {
        let res = lookup.get(*x);
        assert_eq!(res, Some(pos as u64));
    }

    for x in [0, 3, (1_u64 << 33) + 1, (1_u64 << 34) + 1, 1_u64 << 35].iter() {
        let res = lookup.get(*x);
        assert_eq!(res, None);
    }
}

#[test]
fn ids_test_mapping_of_small_ints() {
    let mut builder = IdTableBuilder::new();
    let data = [9, 8, 7, 4, 3, 10, 13];
    for x in data.iter() {
        builder.insert(*x);
    }

    let lookup = builder.finalize();
    for (pos, x) in data.iter().enumerate() {
        let res = lookup.find(*x);
        assert_eq!(res, Some(pos as u32));
    }

    for x in [0, 1, 2, 5, 6, 11, 12, 14].iter() {
        let res = lookup.find(*x);
        assert_eq!(res, None);
    }
}

#[test]
fn ids_test_mapping_of_large_ints() {
    let mut builder = IdTableBuilder::new();
    let data = [2, 1, 1_u64 << 33, 1_u64 << 34];
    for x in data.iter() {
        builder.insert(*x);
    }

    let lookup = builder.finalize();
    for (pos, x) in data.iter().enumerate() {
        let res = lookup.find(*x);
        assert_eq!(res, Some(pos as u32));
    }

    for x in [0, 3, (1_u64 << 33) + 1, (1_u64 << 34) + 1, 1_u64 << 35].iter() {
        let res = lookup.find(*x);
        assert_eq!(res, None);
    }
}

#[test]
fn insert_returns_consecutive_positions() {
    let mut builder = IdTableBuilder::new();
    assert_eq!(builder.insert(100), 0);
    assert_eq!(builder.insert(5), 1);
    assert_eq!(builder.insert(1_u64 << 40), 2);
    assert_eq!(builder.len(), 3);
    let table = builder.build();
    assert_eq!(table.get(5), Some(1));
    assert_eq!(table.get(1_u64 << 40), Some(2));
    assert_eq!(table.get(u64::MAX), None);
}

#[test]
fn skip_reserves_positions() {
    let mut builder = IdTableBuilder::new();
    builder.insert(7);
    builder.skip(3);
    assert_eq!(builder.insert(8), 4);
    let table = builder.finalize();
    assert_eq!(table.find(7), Some(0));
    assert_eq!(table.find(8), Some(4));
}

#[test]
fn first_position_of_a_repeated_id() {
    let mut builder = IdTableBuilder::new();
    builder.insert(42);
    builder.insert(42);
    let table = builder.build();
    assert_eq!(table.get(42), Some(0));
}
