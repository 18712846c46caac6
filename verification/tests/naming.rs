//! Tests of collection naming: the identifier derivation, its exact
//! layout, its distinctness, and the small builders around it.

use rustmap_db::db::{to_raw_id, DBMaker};
use rustmap_db::hasher::WyBuildHasher;

#[test]
fn test_raw_id_exact_layout() {
    // eight big-endian length bytes, then the name's UTF-8 bytes
    let id = to_raw_id("m".to_string());
    let mut expected = 1u64.to_be_bytes().to_vec();
    expected.push(b'm');
    assert_eq!(id, expected);

    let id = to_raw_id("test_hashmap".to_string());
    let mut expected = 12u64.to_be_bytes().to_vec();
    expected.extend_from_slice("test_hashmap".as_bytes());
    assert_eq!(id, expected);

    let id = to_raw_id(String::new());
    assert_eq!(id, 0u64.to_be_bytes().to_vec());
}

#[test]
fn test_distinct_names_give_distinct_ids() {
    let names = ["", "a", "b", "ab", "ba", "test_clear", "test_clear_2"];
    for (i, x) in names.iter().enumerate() {
        for (j, y) in names.iter().enumerate() {
            let same = to_raw_id(x.to_string()) == to_raw_id(y.to_string());
            assert_eq!(same, i == j);
        }
    }
}

#[test]
fn test_file_db_keeps_the_path() {
    let maker = DBMaker::file_db("t.db".to_string());
    assert_eq!(maker.path, "t.db".to_string());
}

#[test]
fn test_build_hasher_seeds() {
    assert_eq!(WyBuildHasher::new().0, 0);
    assert_eq!(WyBuildHasher::with_seed(42).0, 42);
}
