use tree_merge::status::{fast_eq_contents, hash_eq_contents, hash_eq_outcome, is_empty_blob, FastEq, HashEq, IndexEntry, ReadDataOnce};

struct Data<'a>(&'a [u8]);

impl<'a> ReadDataOnce<'a, ()> for Data<'a> {
    fn read_data(self) -> Result<&'a [u8], ()> {
        Ok(self.0)
    }
}

fn hex(s: &str) -> Vec<u8> {
    (0..s.len()).step_by(2).map(|i| u8::from_str_radix(&s[i..i + 2], 16).unwrap()).collect()
}

const HELLO_ID: &str = "ce013625030ba8dba906f756967f9e9ca394464a";
const EMPTY_ID: &str = "e69de29bb2d1d6434b8b29ae775ad8c2e48c5391";

#[test]
fn empty_blob_id_is_recognised() {
    assert!(is_empty_blob(&hex(EMPTY_ID)));
    assert!(!is_empty_blob(&hex(HELLO_ID)));
}

#[test]
fn hash_eq_finds_unchanged_file() {
    let entry = IndexEntry { size: 6, id: hex(HELLO_ID) };
    let r = HashEq.compare_blobs(&entry, 6, Data(b"hello\n"), Data(b""));
    assert_eq!(r, Ok(None));
}

#[test]
fn hash_eq_returns_id_of_changed_file() {
    let entry = IndexEntry { size: 0, id: hex(EMPTY_ID) };
    let r = HashEq.compare_blobs(&entry, 6, Data(b"hello\n"), Data(b""));
    assert_eq!(r, Ok(Some(hex(HELLO_ID))));
}

#[test]
fn fast_eq_size_mismatch_is_change() {
    let entry = IndexEntry { size: 3, id: hex(HELLO_ID) };
    assert_eq!(FastEq.compare_blobs(&entry, 6, Data(b"hello\n"), Data(b"")), Ok(Some(())));
}

#[test]
fn fast_eq_hashes_when_sizes_match() {
    let entry = IndexEntry { size: 6, id: hex(HELLO_ID) };
    assert_eq!(FastEq.compare_blobs(&entry, 6, Data(b"hello\n"), Data(b"")), Ok(None));
    let entry = IndexEntry { size: 6, id: hex(EMPTY_ID) };
    assert_eq!(FastEq.compare_blobs(&entry, 6, Data(b"hello\n"), Data(b"")), Ok(Some(())));
}

#[test]
fn fast_eq_ignores_racily_zeroed_size() {
    let entry = IndexEntry { size: 0, id: hex(HELLO_ID) };
    assert_eq!(FastEq.compare_blobs(&entry, 6, Data(b"hello\n"), Data(b"")), Ok(None));
}


#[test]
fn hash_eq_outcome_maps_computed_id() {
    let id = hex(HELLO_ID);
    assert_eq!(hash_eq_outcome(&id, Some(hex(HELLO_ID))), None);
    assert_eq!(hash_eq_outcome(&id, Some(hex(EMPTY_ID))), Some(hex(EMPTY_ID)));
    assert_eq!(hash_eq_outcome(&id, None), Some(Vec::new()));
}

#[test]
fn contents_comparisons_hash_the_data() {
    let entry = IndexEntry { size: 6, id: hex(HELLO_ID) };
    assert_eq!(fast_eq_contents(&entry, b"hello\n"), None);
    assert_eq!(fast_eq_contents(&entry, b""), Some(()));
    assert_eq!(hash_eq_contents(&entry, b"hello\n"), None);
    assert_eq!(hash_eq_contents(&entry, b""), Some(hex(EMPTY_ID)));
}

const EMPTY_ID_SHA256: &str = "473a0f4c3be8a93681a267e3b1e9a7dcda1185436fe141f7749120a303721813";

#[test]
fn sha256_entries_hash_with_sha256() {
    assert!(is_empty_blob(&hex(EMPTY_ID_SHA256)));
    let entry = IndexEntry { size: 0, id: hex(EMPTY_ID_SHA256) };
    assert_eq!(HashEq.compare_blobs(&entry, 0, Data(b""), Data(b"")), Ok(None));
    assert_eq!(hash_eq_contents(&entry, b""), None);
    let changed = hash_eq_contents(&entry, b"hello\n").unwrap();
    assert_eq!(changed.len(), 32);
    assert_ne!(changed, hex(EMPTY_ID_SHA256));
}
