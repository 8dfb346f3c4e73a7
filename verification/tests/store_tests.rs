use raw_assets::store::RawAssets;
use raw_assets::Error;

fn bytes(s: &[u8]) -> Vec<u8> {
    s.to_vec()
}

#[test]
fn exact_insert_get_remove() {
    let mut assets = RawAssets::new();
    assets.insert(&bytes(b"test_data/test.png"), bytes(b"PNGDATA"));
    assert_eq!(
        assets.get(&bytes(b"test_data/test.png")).unwrap(),
        &bytes(b"PNGDATA")
    );
    assert_eq!(
        assets.remove(&bytes(b"test_data/test.png")).unwrap(),
        bytes(b"PNGDATA")
    );
    let err = assets.get(&bytes(b"test_data/test.png")).unwrap_err();
    assert_eq!(err, Error::NotFound(bytes(b"test_data/test.png")));
}

#[test]
fn overwrite_keeps_second_buffer() {
    let mut assets = RawAssets::new();
    assets.insert(&bytes(b"a.bin"), bytes(b"first"));
    assets.insert(&bytes(b"a.bin"), bytes(b"second"));
    assert_eq!(assets.len(), 1);
    assert_eq!(assets.get(&bytes(b"a.bin")).unwrap(), &bytes(b"second"));
}

#[test]
fn backslash_normalization() {
    let mut assets = RawAssets::new();
    assets.insert(&bytes(b"a\\b.png"), bytes(b"B"));
    assert_eq!(assets.get(&bytes(b"a/b.png")).unwrap(), &bytes(b"B"));
    assert_eq!(
        assets.match_path(&bytes(b"a/b.png")).unwrap(),
        bytes(b"a/b.png")
    );
}

#[test]
fn jpg_key_answers_jpeg_query() {
    let mut assets = RawAssets::new();
    assets.insert(&bytes(b"x.jpg"), bytes(b"JPG"));
    assert_eq!(assets.get(&bytes(b"x.jpeg")).unwrap(), &bytes(b"JPG"));
}

#[test]
fn jpeg_key_answers_jpg_query() {
    let mut assets = RawAssets::new();
    assets.insert(&bytes(b"x.jpeg"), bytes(b"JPEG"));
    assert_eq!(assets.get(&bytes(b"x.jpg")).unwrap(), &bytes(b"JPEG"));
}

#[test]
fn substring_fallback() {
    let mut assets = RawAssets::new();
    assets.insert(&bytes(b"dir/leaf.bin"), bytes(b"LEAF"));
    assert_eq!(assets.get(&bytes(b"leaf.bin")).unwrap(), &bytes(b"LEAF"));
    assert_eq!(
        assets.match_path(&bytes(b"leaf.bin")).unwrap(),
        bytes(b"dir/leaf.bin")
    );
}

#[test]
fn empty_query_matches_first_entry() {
    let mut assets = RawAssets::new();
    assets.insert(&bytes(b"only/asset.png"), bytes(b"DATA"));
    assert_eq!(assets.get(&bytes(b"")).unwrap(), &bytes(b"DATA"));
}

#[test]
fn ambiguous_query_returns_some_stored_entry() {
    // Two keys contain the query; the scan is documented to return the first
    // key in insertion order, and in any case some stored entry.
    let mut assets = RawAssets::new();
    assets.insert(&bytes(b"one/a.x"), bytes(b"ONE"));
    assets.insert(&bytes(b"two/a.x"), bytes(b"TWO"));
    let resolved = assets.match_path(&bytes(b"a.x")).unwrap();
    assert!(resolved == bytes(b"one/a.x") || resolved == bytes(b"two/a.x"));
    // Deterministic: the same query resolves the same way again.
    assert_eq!(assets.match_path(&bytes(b"a.x")).unwrap(), resolved);
    // First-match-wins by insertion order.
    assert_eq!(resolved, bytes(b"one/a.x"));
    assert_eq!(assets.get(&bytes(b"a.x")).unwrap(), &bytes(b"ONE"));
}

#[test]
fn exact_match_beats_substring_match() {
    let mut assets = RawAssets::new();
    assets.insert(&bytes(b"prefix/a.bin"), bytes(b"LONG"));
    assets.insert(&bytes(b"a.bin"), bytes(b"EXACT"));
    assert_eq!(assets.get(&bytes(b"a.bin")).unwrap(), &bytes(b"EXACT"));
}

#[test]
fn remove_from_empty_store_fails() {
    let mut assets = RawAssets::new();
    let err = assets.remove(&bytes(b"anything")).unwrap_err();
    assert_eq!(err, Error::NotFound(bytes(b"anything")));
}

#[test]
fn extend_merges_with_overwrite() {
    let mut assets = RawAssets::new();
    assets.insert(&bytes(b"keep.bin"), bytes(b"KEEP"));
    assets.insert(&bytes(b"old.bin"), bytes(b"OLD"));
    assets.extend(vec![
        (bytes(b"old.bin"), bytes(b"NEW")),
        (bytes(b"extra\\more.bin"), bytes(b"MORE")),
    ]);
    assert_eq!(assets.len(), 3);
    assert_eq!(assets.get(&bytes(b"keep.bin")).unwrap(), &bytes(b"KEEP"));
    assert_eq!(assets.get(&bytes(b"old.bin")).unwrap(), &bytes(b"NEW"));
    assert_eq!(
        assets.get(&bytes(b"extra/more.bin")).unwrap(),
        &bytes(b"MORE")
    );
}

#[test]
fn iteration_in_insertion_order() {
    let mut assets = RawAssets::new();
    assets.insert(&bytes(b"a.bin"), bytes(b"A"));
    assets.insert(&bytes(b"b.bin"), bytes(b"B"));
    assert_eq!(assets.len(), 2);
    assert_eq!(assets.key_at(0), &bytes(b"a.bin"));
    assert_eq!(assets.bytes_at(0), &bytes(b"A"));
    assert_eq!(assets.key_at(1), &bytes(b"b.bin"));
    assert_eq!(assets.bytes_at(1), &bytes(b"B"));
}

#[test]
fn into_entries_hands_everything_out_in_order() {
    let mut assets = RawAssets::new();
    assets.insert(&bytes(b"a.bin"), bytes(b"A"));
    assets.insert(&bytes(b"b\\c.bin"), bytes(b"C"));
    let entries = assets.into_entries();
    assert_eq!(
        entries,
        vec![
            (bytes(b"a.bin"), bytes(b"A")),
            (bytes(b"b/c.bin"), bytes(b"C")),
        ]
    );
}

#[test]
fn exact_extension_spelling_wins_over_alias() {
    let mut assets = RawAssets::new();
    assets.insert(&bytes(b"x.jpg"), bytes(b"JPG"));
    assets.insert(&bytes(b"x.jpeg"), bytes(b"JPEG"));
    assert_eq!(assets.get(&bytes(b"x.jpg")).unwrap(), &bytes(b"JPG"));
    assert_eq!(assets.get(&bytes(b"x.jpeg")).unwrap(), &bytes(b"JPEG"));
}

#[test]
fn removal_leaves_other_entries() {
    let mut assets = RawAssets::new();
    assets.insert(&bytes(b"a/x.bin"), bytes(b"AX"));
    assets.insert(&bytes(b"b/y.bin"), bytes(b"BY"));
    assert_eq!(assets.remove(&bytes(b"x.bin")).unwrap(), bytes(b"AX"));
    assert_eq!(assets.len(), 1);
    assert_eq!(assets.get(&bytes(b"y.bin")).unwrap(), &bytes(b"BY"));
    let err = assets.get(&bytes(b"x.bin")).unwrap_err();
    assert_eq!(err, Error::NotFound(bytes(b"x.bin")));
}
