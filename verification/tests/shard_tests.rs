use bip39_shard::codec::encode;
use bip39_shard::error::ShardError;
use bip39_shard::shamir::Share;
use bip39_shard::shard::{parse_index, shard_to_share, share_to_shard};

fn w(s: &str) -> Vec<u8> {
    s.as_bytes().to_vec()
}

#[test]
fn bad_index_token_rejected() {
    let tokens = vec![w("abc"), w("hello"), w("world")];
    assert!(matches!(shard_to_share(&tokens), Err(ShardError::InvalidIndex)));
}

#[test]
fn parse_index_bounds() {
    assert_eq!(parse_index(&w("1")).unwrap(), 1);
    assert_eq!(parse_index(&w("255")).unwrap(), 255);
    assert_eq!(parse_index(&w("007")).unwrap(), 7);
    assert!(matches!(parse_index(&w("0")), Err(ShardError::InvalidIndex)));
    assert!(matches!(parse_index(&w("256")), Err(ShardError::InvalidIndex)));
    assert!(matches!(parse_index(&w("99999999999999999999")), Err(ShardError::InvalidIndex)));
    assert!(matches!(parse_index(&w("")), Err(ShardError::InvalidIndex)));
    assert!(matches!(parse_index(&w("12a")), Err(ShardError::InvalidIndex)));
}

#[test]
fn share_shard_round_trip() {
    let y: Vec<u8> = (0..16).map(|i| (i as u8).wrapping_mul(11).wrapping_add(2)).collect();
    let share = Share { x: 5, y: y.clone() };
    let (idx, words) = share_to_shard(&share).unwrap();
    assert_eq!(idx, 5);
    assert_eq!(words, encode(&y).unwrap());

    let mut tokens = vec![w("5")];
    tokens.extend(words);
    let back = shard_to_share(&tokens).unwrap();
    assert_eq!(back.x, 5);
    assert_eq!(back.y, y);
}

#[test]
fn invalid_share_length_rejected() {
    let share = Share { x: 1, y: vec![0u8; 10] };
    assert!(matches!(share_to_shard(&share), Err(ShardError::InvalidShareLength)));
}

#[test]
fn empty_shard_line_rejected() {
    let tokens: Vec<Vec<u8>> = Vec::new();
    assert!(matches!(shard_to_share(&tokens), Err(ShardError::InvalidIndex)));
}

#[test]
fn shard_codec_errors_propagate() {
    // Valid index, bad word count.
    let tokens = vec![w("3"), w("abandon"), w("abandon")];
    assert!(matches!(shard_to_share(&tokens), Err(ShardError::InvalidWordCount)));

    // Valid index, unknown word.
    let mut tokens = vec![w("3")];
    tokens.extend(vec![w("abandon"); 11]);
    tokens.push(w("zzzz"));
    assert!(matches!(shard_to_share(&tokens), Err(ShardError::UnknownWord(_))));

    // Valid index, bad checksum.
    let mut tokens = vec![w("3")];
    tokens.extend(vec![w("abandon"); 11]);
    tokens.push(w("able"));
    assert!(matches!(shard_to_share(&tokens), Err(ShardError::ChecksumMismatch)));
}
