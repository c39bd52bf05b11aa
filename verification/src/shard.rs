//! The paper form of a share: a decimal index token followed by the
//! mnemonic words of the share's value bytes, one-to-one with the
//! share itself.

use vstd::prelude::*;
use crate::codec::{
    checksum_matches, decode, decoded_entropy, encode, phrase_words, valid_entropy_len,
    valid_word_count, words_known,
};
use crate::error::ShardError;
use crate::shamir::Share;

verus! {

/// An ASCII digit byte.
pub open spec fn is_digit(b: u8) -> bool {
    48 <= b <= 57
}

/// The numeric value of a digit string, most significant digit
/// first.
pub open spec fn digits_val(s: Seq<u8>) -> int
    decreases s.len(),
{
    if s.len() == 0 {
        0
    } else {
        10 * digits_val(s.drop_last()) + (s.last() - 48)
    }
}

/// Nothing but digits.
pub open spec fn all_digits(s: Seq<u8>) -> bool {
    forall|i: int| 0 <= i < s.len() ==> is_digit(#[trigger] s[i])
}

/// A token that names a share index: digits only, value 1..=255.
pub open spec fn valid_index_token(s: Seq<u8>) -> bool {
    s.len() > 0 && all_digits(s) && 1 <= digits_val(s) <= 255
}

/// Parses a shard's leading token as a share index.
pub fn parse_index(token: &Vec<u8>) -> (r: Result<u8, ShardError>)
    ensures
        r is Ok <==> valid_index_token(token@),
        r is Ok ==> r->Ok_0 as int == digits_val(token@),
        r is Err ==> r->Err_0 is InvalidIndex,
{
    let len = token.len();
    if len == 0 {
        return Err(ShardError::InvalidIndex);
    }
    let mut val: u16 = 0;
    let mut toobig = false;
    let mut i: usize = 0;
    proof {
        assert(token@.take(0) =~= Seq::<u8>::empty());
    }
    while i < len
        invariant
            i <= len,
            len == token@.len(),
            forall|j: int| 0 <= j < i ==> is_digit(#[trigger] token@[j]),
            !toobig ==> val as int == digits_val(token@.take(i as int)) && val <= 255,
            toobig ==> digits_val(token@.take(i as int)) > 255,
        decreases len - i,
    {
        let b = token[i];
        if b < 48 || b > 57 {
            return Err(ShardError::InvalidIndex);
        }
        proof {
            assert(token@.take(i + 1).drop_last() =~= token@.take(i as int));
            assert(token@.take(i + 1).last() == token@[i as int]);
        }
        if !toobig {
            val = 10 * val + ((b - 48) as u16);
            if val > 255 {
                toobig = true;
            }
        }
        i = i + 1;
    }
    proof {
        assert(token@.take(len as int) =~= token@);
    }
    if toobig {
        return Err(ShardError::InvalidIndex);
    }
    if val == 0 {
        return Err(ShardError::InvalidIndex);
    }
    Ok(val as u8)
}

/// Turns a share into its shard form: the index, and the mnemonic
/// words of the value bytes.
pub fn share_to_shard(share: &Share) -> (r: Result<(u8, Vec<Vec<u8>>), ShardError>)
    ensures
        r is Ok <==> valid_entropy_len(share.y@.len() as int),
        r is Err ==> r->Err_0 is InvalidShareLength,
        r is Ok ==> r->Ok_0.0 == share.x && r->Ok_0.1.deep_view() == phrase_words(share.y@),
{
    let n = share.y.len();
    if !(n == 16 || n == 20 || n == 24 || n == 28 || n == 32) {
        return Err(ShardError::InvalidShareLength);
    }
    match encode(&share.y) {
        Ok(words) => Ok((share.x, words)),
        Err(_) => {
            proof {
                assert(false);
            }
            Err(ShardError::InvalidShareLength)
        },
    }
}

/// Parses one shard line, already split into tokens: the leading
/// token is the index, the rest the mnemonic words.
pub fn shard_to_share(tokens: &Vec<Vec<u8>>) -> (r: Result<Share, ShardError>)
    ensures
        (r is Err && r->Err_0 is InvalidIndex) <==> (tokens.deep_view().len() == 0
            || !valid_index_token(tokens.deep_view()[0])),
        r is Ok <==> (tokens.deep_view().len() > 0 && valid_index_token(tokens.deep_view()[0])
            && valid_word_count(tokens.deep_view().len() - 1) && words_known(
            tokens.deep_view().skip(1),
        ) && checksum_matches(tokens.deep_view().skip(1))),
        r is Ok ==> r->Ok_0.x as int == digits_val(tokens.deep_view()[0]) && r->Ok_0.y@
            == decoded_entropy(tokens.deep_view().skip(1)),
        (r is Err && r->Err_0 is InvalidWordCount) <==> (tokens.deep_view().len() > 0
            && valid_index_token(tokens.deep_view()[0]) && !valid_word_count(
            tokens.deep_view().len() - 1,
        )),
        (r is Err && r->Err_0 is UnknownWord) <==> (tokens.deep_view().len() > 0
            && valid_index_token(tokens.deep_view()[0]) && valid_word_count(
            tokens.deep_view().len() - 1,
        ) && !words_known(tokens.deep_view().skip(1))),
        (r is Err && r->Err_0 is ChecksumMismatch) <==> (tokens.deep_view().len() > 0
            && valid_index_token(tokens.deep_view()[0]) && valid_word_count(
            tokens.deep_view().len() - 1,
        ) && words_known(tokens.deep_view().skip(1)) && !checksum_matches(
            tokens.deep_view().skip(1),
        )),
{
    let ghost tv = tokens.deep_view();
    if tokens.len() == 0 {
        return Err(ShardError::InvalidIndex);
    }
    let x = match parse_index(&tokens[0]) {
        Ok(x) => x,
        Err(e) => {
            proof {
                assert(tv[0] =~= tokens@[0]@);
            }
            return Err(e);
        },
    };
    proof {
        assert(tv[0] =~= tokens@[0]@);
    }
    let mut words: Vec<Vec<u8>> = Vec::new();
    let mut k: usize = 1;
    while k < tokens.len()
        invariant
            1 <= k <= tokens@.len(),
            tv == tokens.deep_view(),
            tv.len() == tokens@.len(),
            words@.len() == k - 1,
            forall|j: int| 0 <= j < k - 1 ==> (#[trigger] words@[j]@) == tv.skip(1)[j],
        decreases tokens@.len() - k,
    {
        let w = tokens[k].clone();
        proof {
            assert(w@ =~= tokens@[k as int]@);
            assert(tv[k as int] =~= tokens@[k as int]@);
        }
        words.push(w);
        k = k + 1;
    }
    proof {
        assert forall|j: int| 0 <= j < words@.len() implies words.deep_view()[j] == tv.skip(1)[j] by {
            assert(words@[j].deep_view() =~= words@[j]@);
        }
        assert(words.deep_view() =~= tv.skip(1));
    }
    match decode(&words) {
        Ok(y) => Ok(Share { x, y }),
        Err(e) => Err(e),
    }
}

} // verus!
