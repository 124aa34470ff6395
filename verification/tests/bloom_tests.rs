//! Bloom filter behavior: soundness, the empty filter, and the wire form.

use docsync::{BloomFilter, ChangeHash};

fn h(n: u8) -> ChangeHash {
    let mut b = [0u8; 32];
    b[0] = n;
    b[4] = n.wrapping_mul(31);
    b[8] = n.wrapping_add(17);
    ChangeHash(b)
}

#[test]
fn bloom_reports_every_inserted_hash() {
    let hashes: Vec<ChangeHash> = (1..=40).map(h).collect();
    let f = BloomFilter::from_hashes(&hashes);
    for x in &hashes {
        assert!(f.contains_hash(x), "an inserted hash must be reported present");
    }
}

#[test]
fn bloom_add_keeps_earlier_entries() {
    let mut f = BloomFilter::from_hashes(&[h(1), h(2), h(3)]);
    f.add_hash(&h(4));
    for n in 1..=4 {
        assert!(f.contains_hash(&h(n)));
    }
}

#[test]
fn empty_bloom_contains_nothing() {
    let f = BloomFilter::from_hashes(&[]);
    for n in 0..=20 {
        assert!(!f.contains_hash(&h(n)));
    }
}

#[test]
fn empty_bloom_serializes_as_three_zeros() {
    let f = BloomFilter::from_hashes(&[]);
    assert_eq!(f.to_bytes(), vec![0, 0, 0]);
    let d = BloomFilter::default();
    assert_eq!(d.to_bytes(), vec![0, 0, 0]);
}

#[test]
fn bloom_round_trip() {
    let hashes: Vec<ChangeHash> = (1..=9).map(h).collect();
    let f = BloomFilter::from_hashes(&hashes);
    let back = BloomFilter::from_bytes(&f.to_bytes()).unwrap();
    assert_eq!(back, f);
    for x in &hashes {
        assert!(back.contains_hash(x));
    }
}

#[test]
fn decoded_empty_bloom_contains_nothing() {
    let back = BloomFilter::from_bytes(&[0, 0, 0]).unwrap();
    for n in 0..=20 {
        assert!(!back.contains_hash(&h(n)));
    }
}
