use bip39_shard::api::{generate, recover_phrase, split_phrase};
use bip39_shard::codec::{decode, encode};
use bip39_shard::error::ShardError;

fn w(s: &str) -> Vec<u8> {
    s.as_bytes().to_vec()
}

fn shard_line(index: u8, words: &[Vec<u8>]) -> Vec<Vec<u8>> {
    let mut line = vec![index.to_string().into_bytes()];
    line.extend(words.iter().cloned());
    line
}

#[test]
fn split_and_recover_two_subsets() {
    let entropy: Vec<u8> = (0..16).map(|i| (i as u8).wrapping_mul(29).wrapping_add(1)).collect();
    let words = encode(&entropy).unwrap();
    assert_eq!(words.len(), 12);

    let shards = split_phrase(&words, 3, 5).unwrap();
    assert_eq!(shards.len(), 5);
    for (j, (idx, shard_words)) in shards.iter().enumerate() {
        assert_eq!(*idx as usize, j + 1);
        assert_eq!(shard_words.len(), 12);
    }

    // Shards 1, 3 and 5.
    let lines: Vec<Vec<Vec<u8>>> = [0usize, 2, 4]
        .iter()
        .map(|&i| shard_line(shards[i].0, &shards[i].1))
        .collect();
    assert_eq!(recover_phrase(&lines).unwrap(), words);

    // Shards 2, 4 and 5.
    let lines: Vec<Vec<Vec<u8>>> = [1usize, 3, 4]
        .iter()
        .map(|&i| shard_line(shards[i].0, &shards[i].1))
        .collect();
    assert_eq!(recover_phrase(&lines).unwrap(), words);
}

#[test]
fn split_threshold_above_count_rejected() {
    let entropy = vec![0u8; 16];
    let words = encode(&entropy).unwrap();
    assert!(matches!(split_phrase(&words, 6, 5), Err(ShardError::InvalidThreshold)));
}

#[test]
fn split_rejects_bad_phrase() {
    let words = vec![w("abandon"); 13];
    assert!(matches!(split_phrase(&words, 3, 5), Err(ShardError::InvalidWordCount)));
    let mut words = vec![w("abandon"); 11];
    words.push(w("able"));
    assert!(matches!(split_phrase(&words, 3, 5), Err(ShardError::ChecksumMismatch)));
}

#[test]
fn recover_rejects_bad_lines() {
    let lines = vec![vec![w("abc"), w("hello"), w("world")]];
    assert!(matches!(recover_phrase(&lines), Err(ShardError::InvalidIndex)));

    let empty: Vec<Vec<Vec<u8>>> = Vec::new();
    assert!(matches!(recover_phrase(&empty), Err(ShardError::InconsistentShares)));
}

#[test]
fn recover_rejects_duplicate_indices() {
    let entropy: Vec<u8> = (0..16).collect();
    let words = encode(&entropy).unwrap();
    let shards = split_phrase(&words, 2, 3).unwrap();
    let lines = vec![
        shard_line(shards[0].0, &shards[0].1),
        shard_line(shards[0].0, &shards[0].1),
    ];
    assert!(matches!(recover_phrase(&lines), Err(ShardError::InconsistentShares)));
}

#[test]
fn generated_phrase_decodes() {
    let words = generate().unwrap();
    assert_eq!(words.len(), 24);
    let entropy = decode(&words).unwrap();
    assert_eq!(entropy.len(), 32);
    assert_eq!(encode(&entropy).unwrap(), words);
}
