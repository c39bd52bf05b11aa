use bip39_shard::error::ShardError;
use bip39_shard::shamir::{deal, recover, Share};

fn secret16() -> Vec<u8> {
    (0..16).map(|i| (i as u8).wrapping_mul(13).wrapping_add(5)).collect()
}

fn coeffs_for(secret_len: usize, threshold: u8) -> Vec<u8> {
    (0..secret_len * (threshold as usize - 1)).map(|i| (i as u8).wrapping_mul(31).wrapping_add(7)).collect()
}

fn subset(shares: &[Share], picks: &[usize]) -> Vec<Share> {
    picks.iter().map(|&i| Share { x: shares[i].x, y: shares[i].y.clone() }).collect()
}

#[test]
fn deal_recover_roundtrip() {
    let secret = secret16();
    let coeffs = coeffs_for(16, 3);
    let shares = deal(&secret, 3, 5, &coeffs).unwrap();
    assert_eq!(shares.len(), 5);
    for (j, s) in shares.iter().enumerate() {
        assert_eq!(s.x, (j + 1) as u8);
        assert_eq!(s.y.len(), 16);
    }
    let got = recover(&subset(&shares, &[0, 1, 2])).unwrap();
    assert_eq!(got, secret);
    let got = recover(&subset(&shares, &[2, 3, 4])).unwrap();
    assert_eq!(got, secret);
    let all = recover(&subset(&shares, &[0, 1, 2, 3, 4])).unwrap();
    assert_eq!(all, secret);
}

#[test]
fn two_subsets_agree() {
    let secret = secret16();
    let coeffs = coeffs_for(16, 3);
    let shares = deal(&secret, 3, 5, &coeffs).unwrap();
    let a = recover(&subset(&shares, &[0, 2, 4])).unwrap();
    let b = recover(&subset(&shares, &[1, 3, 4])).unwrap();
    assert_eq!(a, b);
    assert_eq!(a, secret);
}

#[test]
fn under_threshold_returns_something() {
    let secret = secret16();
    let coeffs = coeffs_for(16, 3);
    let shares = deal(&secret, 3, 5, &coeffs).unwrap();
    let got = recover(&subset(&shares, &[0, 1])).unwrap();
    assert_eq!(got.len(), 16);
}

#[test]
fn threshold_above_count_rejected() {
    let secret = secret16();
    let coeffs = Vec::new();
    assert!(matches!(deal(&secret, 6, 5, &coeffs), Err(ShardError::InvalidThreshold)));
}

#[test]
fn threshold_below_two_rejected() {
    let secret = secret16();
    let coeffs = Vec::new();
    assert!(matches!(deal(&secret, 1, 5, &coeffs), Err(ShardError::InvalidThreshold)));
    assert!(matches!(deal(&secret, 0, 5, &coeffs), Err(ShardError::InvalidThreshold)));
}

#[test]
fn inconsistent_shares_rejected() {
    let empty: Vec<Share> = Vec::new();
    assert!(matches!(recover(&empty), Err(ShardError::InconsistentShares)));

    let dup = vec![
        Share { x: 1, y: vec![1, 2, 3] },
        Share { x: 1, y: vec![4, 5, 6] },
    ];
    assert!(matches!(recover(&dup), Err(ShardError::InconsistentShares)));

    let ragged = vec![
        Share { x: 1, y: vec![1, 2, 3] },
        Share { x: 2, y: vec![4, 5] },
    ];
    assert!(matches!(recover(&ragged), Err(ShardError::InconsistentShares)));
}
