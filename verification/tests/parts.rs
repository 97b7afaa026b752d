use tiered_storage::api::{PrefixIterator, PrefixResult, ScanItems, StoreError};
use tiered_storage::bytes::{place, starts_with, Placed};
use tiered_storage::chained::ChainedIterator;
use tiered_storage::ordered::ByteMap;

/// A scan of given items.
struct Listed {
    items: Vec<PrefixResult>,
}

impl PrefixIterator for Listed {
    fn remaining(&self) -> ScanItems {
        unreachable!()
    }

    fn next(&mut self) -> Option<PrefixResult> {
        if self.items.is_empty() {
            None
        } else {
            Some(self.items.remove(0))
        }
    }
}

fn entry(key: &str, value: &str) -> PrefixResult {
    Ok((key.as_bytes().to_vec(), value.as_bytes().to_vec()))
}

fn failure(text: &str) -> PrefixResult {
    Err(StoreError::Custom(text.to_string()))
}

#[test]
fn prefixes() {
    assert!(starts_with(b"abc", b""));
    assert!(starts_with(b"abc", b"ab"));
    assert!(starts_with(b"abc", b"abc"));
    assert!(!starts_with(b"abc", b"abcd"));
    assert!(!starts_with(b"abc", b"b"));
}

#[test]
fn byte_strings_are_ordered_like_slices() {
    let strings: [&[u8]; 6] = [b"", b"\x00", b"a", b"a\x00", b"ab", b"\xff"];
    for a in strings {
        for b in strings {
            match place(a, b) {
                Placed::Before => assert!(a < b),
                Placed::Same => assert!(a == b),
                Placed::After => assert!(a > b),
            }
        }
    }
}

#[test]
fn a_byte_map_keeps_what_was_put_last() {
    let mut map: ByteMap<u32> = ByteMap::new();
    for i in 0..200u32 {
        map.insert(vec![(i * 7 % 50) as u8], i);
    }
    for k in 0..50u32 {
        let last = (0..200u32).filter(|i| i * 7 % 50 == k).max();
        assert_eq!(map.get(&[k as u8]).copied(), last);
    }
    assert!(map.contains_key(&[3]));
    map.remove(&[3]);
    map.remove(&[3]);
    assert!(!map.contains_key(&[3]));
    assert!(map.contains_key(&[4]));
}

#[test]
fn a_byte_map_is_scanned_in_order() {
    let mut map: ByteMap<u32> = ByteMap::new();
    for (i, key) in ["b", "ab", "a", "ac", "aa", "c"].iter().enumerate() {
        map.insert(key.as_bytes().to_vec(), i as u32);
    }
    let mut scan = map.scan(b"a");
    let mut keys: Vec<Vec<u8>> = Vec::new();
    while let Some(pair) = scan.next() {
        keys.push(pair.0.clone());
    }
    assert_eq!(keys, vec![b"a".to_vec(), b"aa".to_vec(), b"ab".to_vec(), b"ac".to_vec()]);
    assert!(map.scan(b"d").next().is_none());
}

#[test]
fn failures_of_either_scan_are_handed_on() {
    let hot = Listed { items: vec![entry("a", "hot"), failure("hot"), entry("b", "hot")] };
    let cold = Listed {
        items: vec![entry("b", "cold"), failure("cold"), entry("c", "cold"), entry("c", "again")],
    };
    let mut both = ChainedIterator::new(hot, Some(cold));
    assert_eq!(both.next(), Some(entry("a", "hot")));
    assert_eq!(both.next(), Some(failure("hot")));
    assert_eq!(both.next(), Some(entry("b", "hot")));
    assert_eq!(both.next(), Some(failure("cold")));
    assert_eq!(both.next(), Some(entry("c", "cold")));
    assert_eq!(both.next(), None);
    assert_eq!(both.next(), None);
}

#[test]
fn without_a_cold_scan_only_the_hot_one_is_yielded() {
    let hot = Listed { items: vec![entry("a", "1"), entry("a", "2")] };
    let none: Option<Listed> = None;
    let mut only = ChainedIterator::new(hot, none);
    assert_eq!(only.next(), Some(entry("a", "1")));
    assert_eq!(only.next(), Some(entry("a", "2")));
    assert_eq!(only.next(), None);
}
