//! End-to-end checks of the record store: the scenarios the design calls
//! out, plus coverage of each error and of the on-disk round trip.

use recstore::btree::{Index, StoreError};
use recstore::table::Table;

fn b(s: &str) -> Vec<u8> {
    s.as_bytes().to_vec()
}

/// Scenario: a one-byte-key table stores, reads back and updates a record.
#[test]
fn small_add_search_update() {
    let mut t = Table::create(Vec::new(), 30, 1).unwrap();
    t.add_record(&b("X"), &b("record-X")).unwrap();
    let got = t.search_record(&b("X")).unwrap();
    assert_eq!(got.len(), 30);
    assert_eq!(&got[..8], b"record-X");
    t.update_record(&b("X"), &b("new-X")).unwrap();
    let got = t.search_record(&b("X")).unwrap();
    assert_eq!(&got[..5], b"new-X");
    let mut i = 5;
    while i < 30 {
        assert_eq!(got[i], 0u8);
        i += 1;
    }
}

/// Scenario: with minimum degree 2, the fifth insertion has split the root;
/// lookups and the in-order walk still see every key.
#[test]
fn split_promotes_root() {
    let mut idx = Index::create(2, 1).unwrap();
    let names = ["A", "B", "C", "D", "E"];
    let mut i = 0;
    while i < names.len() {
        idx.insert(b(names[i]), (i as u64) + 1).unwrap();
        i += 1;
    }
    assert_eq!(idx.search(&b("C")), Some(3u64));
    assert_eq!(idx.search(&b("E")), Some(5u64));
    assert_eq!(idx.search(&b("F")), None);
    let ents = idx.traverse_inorder();
    assert_eq!(ents.len(), 5);
    let mut i = 0;
    while i < 5 {
        assert_eq!(ents[i].0, b(names[i]));
        assert_eq!(ents[i].1, (i as u64) + 1);
        i += 1;
    }
}

fn four_digit(n: usize) -> Vec<u8> {
    let mut v = vec![0u8; 4];
    v[0] = b'0' + ((n / 1000) % 10) as u8;
    v[1] = b'0' + ((n / 100) % 10) as u8;
    v[2] = b'0' + ((n / 10) % 10) as u8;
    v[3] = b'0' + (n % 10) as u8;
    v
}

/// Scenario: a thousand-record heap image is indexed by a bulk build, and a
/// second build over the same bytes answers identically.
#[test]
fn bulk_build_and_rebuild() {
    let mut heap: Vec<u8> = Vec::new();
    let mut n = 0;
    while n < 1000 {
        let key = four_digit(n);
        heap.extend_from_slice(&key);
        let mut val = vec![0u8; 80];
        val[0] = b'v';
        val[1] = key[1];
        val[2] = key[2];
        val[3] = key[3];
        heap.extend_from_slice(&val);
        n += 1;
    }
    let t1 = Table::create(heap.clone(), 80, 4).unwrap();
    let got = t1.search_record(&b("0500")).unwrap();
    assert_eq!(&got[..4], b"v500");
    // the rebuild over the same heap bytes answers the same
    let t2 = Table::create(heap, 80, 4).unwrap();
    let mut n = 0;
    while n < 1000 {
        let key = four_digit(n);
        assert_eq!(t1.search_record(&key), t2.search_record(&key));
        assert!(t1.search_record(&key).is_some());
        n += 1;
    }
}

/// Scenario: a duplicate add is a soft no-op; the first value stays and the
/// heap file does not grow.
#[test]
fn duplicate_add_keeps_first() {
    let mut t = Table::create(Vec::new(), 10, 1).unwrap();
    t.add_record(&b("K"), &b("v1")).unwrap();
    let len_after_first = t.heap_bytes().len();
    t.add_record(&b("K"), &b("v2")).unwrap();
    let got = t.search_record(&b("K")).unwrap();
    assert_eq!(&got[..2], b"v1");
    assert_eq!(t.heap_bytes().len(), len_after_first);
    assert_eq!(len_after_first, 11);
}

/// Scenario: keys are padded with zero bytes, so any spelling that pads to
/// the same bytes finds the record.
#[test]
fn padded_key_spellings_hit() {
    let mut t = Table::create(Vec::new(), 16, 7).unwrap();
    t.add_record(&b("abc"), &b("data")).unwrap();
    let a = t.search_record(&b("abc")).unwrap();
    let bb = t.search_record(&b("abc\0")).unwrap();
    assert_eq!(a, bb);
    assert_eq!(&a[..4], b"data");
}

/// Scenario: the same insertion sequence under every minimum degree lists
/// the same records in the same order.
#[test]
fn degree_variation_same_listing() {
    let degrees = [2u32, 4, 8, 16, 32];
    let mut listings: Vec<Vec<(Vec<u8>, Vec<u8>)>> = Vec::new();
    let mut d = 0;
    while d < degrees.len() {
        let mut t = Table::create_benchmark(Vec::new(), 8, 2, degrees[d]).unwrap();
        let mut n = 0;
        while n < 60 {
            // a scrambled but fixed order of two-letter keys
            let m = (n * 37 + 11) % 60;
            let key = vec![b'a' + (m / 10) as u8, b'0' + (m % 10) as u8];
            let mut val = vec![0u8; 3];
            val[0] = b'r';
            val[1] = key[0];
            val[2] = key[1];
            t.add_record(&key, &val).unwrap();
            n += 1;
        }
        listings.push(t.list_records());
        d += 1;
    }
    let mut d = 1;
    while d < listings.len() {
        assert_eq!(listings[0], listings[d]);
        d += 1;
    }
    // and the listing is sorted by key
    let first = &listings[0];
    let mut i = 1;
    while i < first.len() {
        assert!(first[i - 1].0 < first[i].0);
        i += 1;
    }
}

/// The update of a stored record never touches the key bytes on disk.
#[test]
fn update_preserves_key_bytes() {
    let mut t = Table::create(Vec::new(), 6, 3).unwrap();
    t.add_record(&b("abc"), &b("one")).unwrap();
    t.add_record(&b("xyz"), &b("two")).unwrap();
    let before = t.heap_bytes();
    t.update_record(&b("abc"), &b("woo")).unwrap();
    let after = t.heap_bytes();
    assert_eq!(after.len(), before.len());
    assert_eq!(&after[..3], b"abc");
    assert_eq!(&after[3..6], b"woo");
    assert_eq!(&after[9..12], b"xyz");
    // a second identical update changes nothing further
    let again = {
        t.update_record(&b("abc"), &b("woo")).unwrap();
        t.heap_bytes()
    };
    assert_eq!(again, after);
}

/// An update of an absent key is a soft miss: success, nothing changes.
#[test]
fn update_missing_key_is_soft() {
    let mut t = Table::create(Vec::new(), 6, 3).unwrap();
    t.add_record(&b("abc"), &b("one")).unwrap();
    let before = t.heap_bytes();
    t.update_record(&b("zzz"), &b("two")).unwrap();
    assert_eq!(t.heap_bytes(), before);
    assert_eq!(t.search_record(&b("zzz")), None);
}

/// Oversize keys and values are rejected with `InvalidInput`.
#[test]
fn oversize_inputs_rejected() {
    let mut t = Table::create(Vec::new(), 4, 2).unwrap();
    assert_eq!(t.add_record(&b("abc"), &b("v")), Err(StoreError::InvalidInput));
    assert_eq!(t.add_record(&b("ab"), &b("toolong")), Err(StoreError::InvalidInput));
    t.add_record(&b("ab"), &b("v")).unwrap();
    assert_eq!(t.update_record(&b("abc"), &b("v")), Err(StoreError::InvalidInput));
    assert_eq!(t.update_record(&b("ab"), &b("toolong")), Err(StoreError::InvalidInput));
}

/// A minimum degree below 2 cannot make a B-tree.
#[test]
fn degree_below_two_rejected() {
    assert!(matches!(Index::create(1, 4), Err(StoreError::InvalidInput)));
    assert!(matches!(
        Table::create_benchmark(Vec::new(), 8, 2, 0),
        Err(StoreError::InvalidInput)
    ));
}

/// The index file image round-trips: serialize, reopen, serialize again.
#[test]
fn index_file_round_trip() {
    let mut idx = Index::create(3, 2).unwrap();
    let names = ["aa", "bb", "cc", "dd", "ee", "ff", "gg", "hh"];
    let mut i = 0;
    while i < names.len() {
        idx.insert(b(names[i]), 100 + i as u64).unwrap();
        i += 1;
    }
    let bytes = idx.to_bytes();
    // header: t, root_offset, keysize, little-endian
    assert_eq!(&bytes[0..4], &[3, 0, 0, 0]);
    assert_eq!(&bytes[12..14], &[2, 0]);
    let mut roff = [0u8; 8];
    roff.copy_from_slice(&bytes[4..12]);
    assert_eq!(u64::from_le_bytes(roff), idx.root_offset());
    let idx2 = Index::open(&bytes).unwrap();
    assert_eq!(idx2.to_bytes(), bytes);
    let mut i = 0;
    while i < names.len() {
        assert_eq!(idx2.search(&b(names[i])), Some(100 + i as u64));
        i += 1;
    }
    assert_eq!(idx2.search(&b("zz")), None);
}

/// Garbage bytes are refused when reopening an index image.
#[test]
fn corrupt_index_rejected() {
    assert!(matches!(Index::open(&vec![1u8, 2, 3]), Err(StoreError::Corrupt)));
    let idx = Index::create(2, 1).unwrap();
    let mut bytes = idx.to_bytes();
    bytes.pop();
    assert!(matches!(Index::open(&bytes), Err(StoreError::Corrupt)));
}

/// A fresh table attached to the index image written by an earlier run
/// answers like the table that wrote it.
#[test]
fn attach_existing_index() {
    let mut t = Table::create(Vec::new(), 8, 2).unwrap();
    t.add_record(&b("aa"), &b("one")).unwrap();
    t.add_record(&b("bb"), &b("two")).unwrap();
    let heap = t.heap_bytes();
    let index_image = t.index_ref().to_bytes();
    let reopened = Index::open(&index_image).unwrap();
    let t2 = Table::attach(heap, 8, reopened);
    assert_eq!(t2.search_record(&b("aa")), t.search_record(&b("aa")));
    assert_eq!(t2.search_record(&b("bb")), t.search_record(&b("bb")));
    assert_eq!(t2.search_record(&b("cc")), None);
}

/// The subtree walk from the root offset matches the whole-tree walk.
#[test]
fn traverse_from_root_offset() {
    let mut idx = Index::create(2, 1).unwrap();
    let names = ["d", "b", "f", "a", "c", "e", "g"];
    let mut i = 0;
    while i < names.len() {
        idx.insert(b(names[i]), i as u64).unwrap();
        i += 1;
    }
    let all = idx.traverse_inorder();
    let from_root = idx.traverse_inorder_from(idx.root_offset());
    assert_eq!(all, from_root);
    assert_eq!(all.len(), 7);
    let mut i = 1;
    while i < all.len() {
        assert!(all[i - 1].0 < all[i].0);
        i += 1;
    }
}

/// With duplicate keys in the index, search is repeatable and depends only
/// on the zero-padded form of the key.
#[test]
fn duplicate_keys_search_is_stable() {
    let mut idx = Index::create(2, 2).unwrap();
    idx.insert(b("aa"), 1).unwrap();
    idx.insert(b("aa"), 2).unwrap();
    idx.insert(b("ab"), 3).unwrap();
    let r1 = idx.search(&b("aa"));
    let r2 = idx.search(&b("aa"));
    assert_eq!(r1, r2);
    assert!(r1.is_some());
    assert_eq!(idx.search(&b("ab")), Some(3u64));
    assert_eq!(idx.traverse_inorder().len(), 3);
}

/// The fourth insertion into a degree-2 tree splits the full root: the new
/// root sits at a fresh offset and holds exactly the promoted middle key.
#[test]
fn fourth_insert_splits_root() {
    let mut idx = Index::create(2, 1).unwrap();
    idx.insert(b("A"), 1).unwrap();
    idx.insert(b("B"), 2).unwrap();
    idx.insert(b("C"), 3).unwrap();
    let before = idx.root_offset();
    idx.insert(b("D"), 4).unwrap();
    let after = idx.root_offset();
    assert_ne!(before, after);
    // read the new root straight out of the file image: n == 1, key == "B"
    let bytes = idx.to_bytes();
    let off = after as usize;
    assert_eq!(&bytes[off..off + 4], &[1, 0, 0, 0]);
    assert_eq!(bytes[off + 4], b'B');
    // the old root stays on disk as child 0 of the new root
    let kids_at = off + 4 + 3 * (1 + 8);
    let mut c0 = [0u8; 8];
    c0.copy_from_slice(&bytes[kids_at..kids_at + 8]);
    assert_eq!(u64::from_le_bytes(c0), before);
}
