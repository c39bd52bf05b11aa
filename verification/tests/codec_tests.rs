use bip39_shard::codec::{decode, encode};
use bip39_shard::error::ShardError;

fn w(s: &str) -> Vec<u8> {
    s.as_bytes().to_vec()
}

fn phrase(words: &[&str]) -> Vec<Vec<u8>> {
    words.iter().map(|s| w(s)).collect()
}

#[test]
fn round_trip_all_lengths() {
    for len in [16usize, 20, 24, 28, 32] {
        let entropy: Vec<u8> = (0..len).map(|i| (i as u8).wrapping_mul(7).wrapping_add(3)).collect();
        let words = encode(&entropy).unwrap();
        assert_eq!(words.len(), 3 * len / 4);
        let back = decode(&words).unwrap();
        assert_eq!(back, entropy);
    }
}

#[test]
fn known_vector_all_zero() {
    let entropy = vec![0u8; 16];
    let words = encode(&entropy).unwrap();
    let mut expected = vec![w("abandon"); 11];
    expected.push(w("about"));
    assert_eq!(words, expected);
    assert_eq!(decode(&words).unwrap(), entropy);
}

#[test]
fn known_vector_all_ones() {
    let entropy = vec![0xFFu8; 16];
    let words = encode(&entropy).unwrap();
    let mut expected = vec![w("zoo"); 11];
    expected.push(w("wrong"));
    assert_eq!(words, expected);
}

#[test]
fn known_vector_24_words() {
    let entropy = vec![0u8; 32];
    let words = encode(&entropy).unwrap();
    let mut expected = vec![w("abandon"); 23];
    expected.push(w("art"));
    assert_eq!(words, expected);
}

#[test]
fn checksum_flip_detected() {
    // The all-zero phrase ends in "about" (index 3); "able" (index 2)
    // differs from it only in the checksum bits.
    let mut words = vec![w("abandon"); 11];
    words.push(w("able"));
    assert!(matches!(decode(&words), Err(ShardError::ChecksumMismatch)));
}

#[test]
fn unknown_word_reported() {
    let mut words = vec![w("abandon"); 11];
    words.push(w("zzzz"));
    match decode(&words) {
        Err(ShardError::UnknownWord(word)) => assert_eq!(word, w("zzzz")),
        other => panic!("expected UnknownWord, got {:?}", other),
    }
}

#[test]
fn invalid_word_count_rejected() {
    let words = phrase(&["abandon"; 13]);
    assert!(matches!(decode(&words), Err(ShardError::InvalidWordCount)));
    let empty: Vec<Vec<u8>> = Vec::new();
    assert!(matches!(decode(&empty), Err(ShardError::InvalidWordCount)));
}

#[test]
fn invalid_entropy_length_rejected() {
    let entropy = vec![0u8; 17];
    assert!(matches!(encode(&entropy), Err(ShardError::InvalidEntropyLength)));
    let entropy = vec![0u8; 0];
    assert!(matches!(encode(&entropy), Err(ShardError::InvalidEntropyLength)));
}
