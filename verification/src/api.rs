//! The library's entry points, one per command: generate a fresh
//! phrase, split a phrase into shards, recover a phrase from shard
//! lines. Each works on plain token vectors; reading lines, joining
//! words and printing stay with the caller.

use vstd::prelude::*;
use crate::codec::{
    checksum_matches, decode, decoded_entropy, encode, lemma_decoded_entropy_len, phrase_words,
    valid_entropy_len, valid_word_count, words_known,
};
use crate::error::ShardError;
use crate::shamir::{
    byte_coeffs, deal, poly_eval, recover, recovered_secret, shares_consistent, xs_of, ys_of,
    Share,
};
use crate::shard::{digits_val, shard_to_share, share_to_shard, valid_index_token};

verus! {

/// Relies on getrandom::getrandom: fills a buffer from the
/// operating system's secure random source. Nothing is promised of
/// the values; a failure of the source is reported, never hidden.
#[verifier::external_body]
fn random_bytes(n: usize) -> (r: Result<Vec<u8>, ShardError>)
    ensures
        r is Ok ==> r->Ok_0@.len() == n,
        r is Err ==> r->Err_0 is RandomSourceFailure,
{
    let mut buf = vec![0u8; n];
    match getrandom::getrandom(&mut buf) {
        Ok(()) => Ok(buf),
        Err(_) => Err(ShardError::RandomSourceFailure),
    }
}

/// The value bytes one share gets: each secret byte's polynomial,
/// evaluated at the share's point.
pub open spec fn share_values(secret: Seq<u8>, coeffs: Seq<u8>, t: int, x: u8) -> Seq<u8> {
    Seq::new(secret.len(), |i: int| poly_eval(byte_coeffs(secret, coeffs, t, i), x))
}

/// Generates a fresh phrase: 32 random bytes, encoded as 24 words.
pub fn generate() -> (r: Result<Vec<Vec<u8>>, ShardError>)
    ensures
        r is Err ==> r->Err_0 is RandomSourceFailure,
        r is Ok ==> exists|e: Seq<u8>|
            (#[trigger] e.len()) == 32 && r->Ok_0.deep_view() == phrase_words(e),
{
    let entropy = match random_bytes(32) {
        Ok(e) => e,
        Err(err) => {
            return Err(err);
        },
    };
    match encode(&entropy) {
        Ok(words) => {
            proof {
                let e = entropy@;
                assert(e.len() == 32 && words.deep_view() == phrase_words(e));
            }
            Ok(words)
        },
        Err(_) => {
            proof {
                assert(false);
            }
            Err(ShardError::InvalidEntropyLength)
        },
    }
}

/// Splits a seed phrase into `count` shards with the given
/// threshold. The phrase is decoded, the entropy dealt into shares
/// with fresh random coefficients, and every share re-encoded as an
/// indexed mnemonic.
pub fn split_phrase(words: &Vec<Vec<u8>>, threshold: u8, count: u8) -> (r: Result<
    Vec<(u8, Vec<Vec<u8>>)>,
    ShardError,
>)
    ensures
        (r is Err && r->Err_0 is InvalidThreshold) <==> (threshold < 2 || threshold > count),
        (r is Err && r->Err_0 is InvalidWordCount) <==> (2 <= threshold <= count
            && !valid_word_count(words@.len() as int)),
        (r is Err && r->Err_0 is UnknownWord) <==> (2 <= threshold <= count && valid_word_count(
            words@.len() as int,
        ) && !words_known(words.deep_view())),
        (r is Err && r->Err_0 is ChecksumMismatch) <==> (2 <= threshold <= count
            && valid_word_count(words@.len() as int) && words_known(words.deep_view())
            && !checksum_matches(words.deep_view())),
        r is Err ==> (r->Err_0 is InvalidThreshold || r->Err_0 is InvalidWordCount || r->Err_0
            is UnknownWord || r->Err_0 is ChecksumMismatch || r->Err_0 is RandomSourceFailure),
        (2 <= threshold <= count && valid_word_count(words@.len() as int) && words_known(
            words.deep_view(),
        ) && checksum_matches(words.deep_view())) ==> (r is Ok || (r is Err
            && r->Err_0 is RandomSourceFailure)),
        r is Ok ==> r->Ok_0@.len() == count as int,
        r is Ok ==> exists|coeffs: Seq<u8>|
            (#[trigger] coeffs.len()) == decoded_entropy(words.deep_view()).len() * ((threshold
                - 1) as int) && (forall|j: int|
                0 <= j < count ==> ((#[trigger] r->Ok_0@[j]).0 as int) == j + 1
                    && r->Ok_0@[j].1.deep_view() == phrase_words(
                    share_values(
                        decoded_entropy(words.deep_view()),
                        coeffs,
                        threshold as int,
                        (j + 1) as u8,
                    ),
                )),
{
    if threshold < 2 || threshold > count {
        return Err(ShardError::InvalidThreshold);
    }
    let secret = match decode(words) {
        Ok(s) => s,
        Err(e) => {
            return Err(e);
        },
    };
    proof {
        lemma_decoded_entropy_len(words.deep_view());
        assert(secret@.len() <= 32);
    }
    let nbytes = secret.len();
    let t1: usize = (threshold - 1) as usize;
    proof {
        assert(nbytes * t1 <= 32 * 254) by (nonlinear_arith)
            requires
                nbytes <= 32 && t1 <= 254,
        ;
    }
    let need: usize = nbytes * t1;
    let coeffs = match random_bytes(need) {
        Ok(c) => c,
        Err(e) => {
            return Err(e);
        },
    };
    let shares = match deal(&secret, threshold, count, &coeffs) {
        Ok(s) => s,
        Err(e) => {
            proof {
                assert(false);
            }
            return Err(e);
        },
    };
    let ghost sv = secret@;
    let ghost cv = coeffs@;
    let ghost t = threshold as int;
    let mut out: Vec<(u8, Vec<Vec<u8>>)> = Vec::new();
    let mut j: usize = 0;
    while j < shares.len()
        invariant
            j <= shares@.len(),
            shares@.len() == count as int,
            sv == secret@,
            cv == coeffs@,
            t == threshold as int,
            2 <= threshold <= count,
            valid_entropy_len(sv.len() as int),
            forall|q: int|
                0 <= q < count ==> (#[trigger] shares@[q].x) == q + 1 && shares@[q].y@.len()
                    == sv.len(),
            forall|q: int, i: int|
                0 <= q < count && 0 <= i < sv.len() ==> (#[trigger] shares@[q].y@[i])
                    == poly_eval(byte_coeffs(sv, cv, t, i), (q + 1) as u8),
            out@.len() == j,
            forall|q: int|
                0 <= q < j ==> ((#[trigger] out@[q]).0 as int) == q + 1 && out@[q].1.deep_view()
                    == phrase_words(share_values(sv, cv, t, (q + 1) as u8)),
        decreases shares@.len() - j,
    {
        match share_to_shard(&shares[j]) {
            Ok(p) => {
                proof {
                    assert(shares@[j as int].y@ =~= share_values(sv, cv, t, (j + 1) as u8));
                }
                out.push(p);
            },
            Err(_) => {
                proof {
                    assert(shares@[j as int].x == j + 1);
                    assert(false);
                }
                return Err(ShardError::InvalidShareLength);
            },
        }
        j = j + 1;
    }
    proof {
        assert((#[trigger] cv.len()) == decoded_entropy(words.deep_view()).len() * ((threshold
            - 1) as int));
    }
    Ok(out)
}

/// One shard line, as tokens: a well-formed index and a decodable
/// mnemonic.
pub open spec fn line_ok(line: Seq<Seq<u8>>) -> bool {
    line.len() > 0 && valid_index_token(line[0]) && valid_word_count(line.len() - 1)
        && words_known(line.skip(1)) && checksum_matches(line.skip(1))
}

/// The share index a shard line names.
pub open spec fn line_x(line: Seq<Seq<u8>>) -> u8 {
    digits_val(line[0]) as u8
}

/// The share value bytes a shard line carries.
pub open spec fn line_y(line: Seq<Seq<u8>>) -> Seq<u8> {
    decoded_entropy(line.skip(1))
}

/// Every line is well formed.
pub open spec fn all_lines_ok(lines: Seq<Seq<Seq<u8>>>) -> bool {
    forall|j: int| 0 <= j < lines.len() ==> line_ok(#[trigger] lines[j])
}

/// The indices of all the lines.
pub open spec fn lines_xs(lines: Seq<Seq<Seq<u8>>>) -> Seq<u8> {
    Seq::new(lines.len(), |j: int| line_x(lines[j]))
}

/// The value strings of all the lines.
pub open spec fn lines_ys(lines: Seq<Seq<Seq<u8>>>) -> Seq<Seq<u8>> {
    Seq::new(lines.len(), |j: int| line_y(lines[j]))
}

/// At least one line, values of one length, indices pairwise
/// distinct.
pub open spec fn lines_consistent(lines: Seq<Seq<Seq<u8>>>) -> bool {
    &&& lines.len() >= 1
    &&& forall|j: int|
        0 <= j < lines.len() ==> (#[trigger] line_y(lines[j]).len()) == line_y(lines[0]).len()
    &&& forall|j: int, k: int| 0 <= j < k < lines.len() ==> line_x(lines[j]) != line_x(lines[k])
}

/// Recovers the original phrase from shard lines, each already
/// split into tokens. Lines are parsed in order and the first
/// malformed one decides the error; the parsed shares are
/// interpolated at 0 and the result re-encoded.
pub fn recover_phrase(lines: &Vec<Vec<Vec<u8>>>) -> (r: Result<Vec<Vec<u8>>, ShardError>)
    ensures
        r is Ok <==> all_lines_ok(lines.deep_view()) && lines_consistent(lines.deep_view()),
        r is Ok ==> r->Ok_0.deep_view() == phrase_words(
            recovered_secret(lines_xs(lines.deep_view()), lines_ys(lines.deep_view())),
        ),
        (r is Err && r->Err_0 is InconsistentShares) <==> (all_lines_ok(lines.deep_view())
            && !lines_consistent(lines.deep_view())),
        !all_lines_ok(lines.deep_view()) ==> (r is Err && exists|j: int|
            0 <= j < lines.deep_view().len() && !line_ok(#[trigger] lines.deep_view()[j]) && (
            forall|q: int| 0 <= q < j ==> line_ok(#[trigger] lines.deep_view()[q])) && {
                let line = lines.deep_view()[j];
                &&& (r->Err_0 is InvalidIndex <==> (line.len() == 0 || !valid_index_token(
                    line[0],
                )))
                &&& (r->Err_0 is InvalidWordCount <==> (line.len() > 0 && valid_index_token(
                    line[0],
                ) && !valid_word_count(line.len() - 1)))
                &&& (r->Err_0 is UnknownWord <==> (line.len() > 0 && valid_index_token(line[0])
                    && valid_word_count(line.len() - 1) && !words_known(line.skip(1))))
                &&& (r->Err_0 is ChecksumMismatch <==> (line.len() > 0 && valid_index_token(
                    line[0],
                ) && valid_word_count(line.len() - 1) && words_known(line.skip(1))
                    && !checksum_matches(line.skip(1))))
            }),
{
    let ghost lv = lines.deep_view();
    let k = lines.len();
    let mut shares: Vec<Share> = Vec::new();
    let mut j: usize = 0;
    while j < k
        invariant
            j <= k,
            k == lines@.len(),
            lv == lines.deep_view(),
            lv.len() == k,
            shares@.len() == j,
            forall|q: int| 0 <= q < j ==> line_ok(#[trigger] lv[q]),
            forall|q: int|
                0 <= q < j ==> (#[trigger] shares@[q].x) == line_x(lv[q]) && shares@[q].y@
                    == line_y(lv[q]),
        decreases k - j,
    {
        proof {
            assert(lv[j as int] == lines@[j as int].deep_view());
        }
        match shard_to_share(&lines[j]) {
            Ok(s) => {
                proof {
                    assert(1 <= digits_val(lv[j as int][0]) <= 255);
                }
                shares.push(s);
                proof {
                    assert(shares@[j as int].x as int == digits_val(lv[j as int][0]));
                    assert(shares@[j as int].x == line_x(lv[j as int]));
                    assert(shares@[j as int].y@ == line_y(lv[j as int]));
                }
            },
            Err(e) => {
                return Err(e);
            },
        }
        j = j + 1;
    }
    proof {
        assert(all_lines_ok(lv));
        assert forall|q: int| 0 <= q < k implies xs_of(shares@)[q] == lines_xs(lv)[q] by {
            assert(shares@[q].x == line_x(lv[q]));
        }
        assert(xs_of(shares@) =~= lines_xs(lv));
        assert forall|q: int| 0 <= q < k implies ys_of(shares@)[q] == lines_ys(lv)[q] by {
            assert(shares@[q].x == line_x(lv[q]));
        }
        assert(ys_of(shares@) =~= lines_ys(lv));
        if k >= 1 {
            if lines_consistent(lv) {
                assert forall|a2: int, b2: int| 0 <= a2 < b2 < k implies shares@[a2].x
                    != shares@[b2].x by {
                    assert(line_x(lv[a2]) != line_x(lv[b2]));
                }
                assert forall|q: int|
                    0 <= q < k implies (#[trigger] shares@[q].y@.len())
                        == shares@[0].y@.len() by {
                    assert(shares@[q].x == line_x(lv[q]));
                    assert(shares@[0].x == line_x(lv[0]));
                    assert(line_y(lv[q]).len() == line_y(lv[0]).len());
                }
                assert(shares_consistent(shares@));
            }
            if shares_consistent(shares@) {
                assert forall|a2: int, b2: int| 0 <= a2 < b2 < k implies line_x(lv[a2])
                    != line_x(lv[b2]) by {
                    assert(shares@[a2].x != shares@[b2].x);
                }
                assert forall|q: int|
                    0 <= q < k implies (#[trigger] line_y(lv[q]).len())
                        == line_y(lv[0]).len() by {
                    assert(shares@[q].x == line_x(lv[q]));
                    assert(shares@[0].x == line_x(lv[0]));
                    assert(shares@[q].y@.len() == shares@[0].y@.len());
                }
                assert(lines_consistent(lv));
            }
        }
    }
    match recover(&shares) {
        Ok(secret) => {
            proof {
                assert(lines_consistent(lv));
                assert(line_ok(lv[0]));
                lemma_decoded_entropy_len(lv[0].skip(1));
                assert(secret@ == recovered_secret(lines_xs(lv), lines_ys(lv)));
                assert(secret@.len() == line_y(lv[0]).len());
            }
            match encode(&secret) {
                Ok(words) => Ok(words),
                Err(_) => {
                    proof {
                        assert(false);
                    }
                    Err(ShardError::InvalidEntropyLength)
                },
            }
        },
        Err(e) => Err(e),
    }
}

} // verus!
