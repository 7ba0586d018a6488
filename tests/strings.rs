use osmflat::compile::{add_string_table, Error};
use osmflat::strings::StringTable;

#[test]
fn test_simple_insert() {
    let mut st = StringTable::new();
    assert_eq!(st.insert("hello"), 0);
    assert_eq!(st.insert("world"), 6);
    assert_eq!(st.insert("world"), 6);
    assert_eq!(st.insert("!"), 6 + 6);
    assert_eq!(st.insert("!"), 6 + 6);
    assert_eq!(st.insert("!"), 6 + 6);

    let bytes = st.into_bytes();
    println!("{}", ::std::str::from_utf8(&bytes).unwrap());
    assert_eq!(bytes, b"hello\0world\0!\0");
}

#[test]
fn test_large_insert() {
    let mut st = StringTable::new();
    assert_eq!(st.insert("hello"), 0);
    assert_eq!(st.insert(&str::repeat("x", 1024 * 1024 * 5)), 6);
    assert_eq!(st.insert("huh"), 1024 * 1024 * 5 + 1 + 6);
    assert_eq!(st.insert(&str::repeat("x", 1024 * 1024 * 5)), 6);
    assert_eq!(st.insert("hello"), 0);

    let bytes = st.into_bytes();
    assert_eq!(
        bytes,
        ("hello\0".to_string() + &str::repeat("x", 1024 * 1024 * 5) + "\0huh\0").as_bytes()
    );
}

#[test]
fn zero_length_string() {
    let mut st = StringTable::new();
    st.insert("a");
    let off = st.insert("");
    assert_eq!(off, 2);
    assert_eq!(st.insert(""), 2);
    assert_eq!(st.next_index(), 3);
    let bytes = st.into_bytes();
    assert_eq!(bytes[off as usize], 0);
}

#[test]
fn repeated_insert_keeps_offset() {
    let mut st = StringTable::new();
    let first = st.insert_bytes(b"amenity");
    for _ in 0..5 {
        assert_eq!(st.insert_bytes(b"amenity"), first);
    }
    let bytes = st.into_bytes();
    assert_eq!(&bytes[first as usize..first as usize + 8], b"amenity\0");
}

#[test]
fn string_table_of_a_block() {
    let mut st = StringTable::new();
    st.insert("b");
    let refs = add_string_table(&vec![b"".to_vec(), b"a".to_vec(), b"b".to_vec(), b"a".to_vec()], &mut st).unwrap();
    assert_eq!(refs, vec![2, 3, 0, 3]);
    assert_eq!(st.into_bytes(), b"b\0\0a\0");
}

#[test]
fn non_utf8_string_is_rejected() {
    let mut st = StringTable::new();
    st.insert("keep");
    let r = add_string_table(&vec![b"ok".to_vec(), vec![0xff, 0xfe]], &mut st);
    assert_eq!(r, Err(Error::NonUtf8String));
    assert_eq!(st.into_bytes(), b"keep\0");
}
