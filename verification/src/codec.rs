//! The mnemonic codec: a checksummed, bijective mapping between an
//! entropy byte string and a sequence of words from the fixed
//! 2048-word English list. The entropy bits are followed by a
//! checksum of one bit per four entropy bytes, taken from the top of
//! the first byte of the entropy's SHA-256 digest; the whole bit
//! string is read as 11-bit groups, each the index of one word.

use vstd::prelude::*;
use vstd::arithmetic::power2::{pow2, lemma2_to64};
use crate::bits::{
    bit_groups, bits_range_val, group_bits, lemma_bit_groups_of_group_bits,
    lemma_bits_val_bound, lemma_group_bits_len, lemma_group_bits_of_bit_groups,
    lemma_group_bits_push, lemma_num_bits_len, num_bits, num_to_bits,
};
use crate::error::ShardError;
use crate::wordlist::{english_word, english_wordlist, find_word, word_idx, word_known};
use sha2::Digest;

verus! {

/// A byte length the codec accepts for entropy.
pub open spec fn valid_entropy_len(n: int) -> bool {
    n == 16 || n == 20 || n == 24 || n == 28 || n == 32
}

/// A word count the codec accepts for a mnemonic.
pub open spec fn valid_word_count(n: int) -> bool {
    n == 12 || n == 15 || n == 18 || n == 21 || n == 24
}

/// The SHA-256 digest of `data`.
pub uninterp spec fn sha256_of(data: Seq<u8>) -> Seq<u8>;

/// Relies on sha2::Sha256::digest: the SHA-256 digest of the input,
/// 32 bytes, a function of the input bytes alone.
#[verifier::external_body]
pub(crate) fn sha256(data: &Vec<u8>) -> (r: Vec<u8>)
    ensures
        r@ == sha256_of(data@),
        r@.len() == 32,
{
    sha2::Sha256::digest(data.as_slice()).to_vec()
}

/// The bytes of `s`, as group values.
pub open spec fn byte_vals(s: Seq<u8>) -> Seq<int> {
    Seq::new(s.len(), |i: int| s[i] as int)
}

/// Group values taken back as bytes.
pub open spec fn vals_bytes(vals: Seq<int>) -> Seq<u8> {
    Seq::new(vals.len(), |i: int| vals[i] as u8)
}

/// The bits of the entropy bytes, most significant first.
pub open spec fn entropy_bits(e: Seq<u8>) -> Seq<bool> {
    group_bits(byte_vals(e), 8)
}

/// The checksum: the top `len/4` bits of the digest's first byte.
pub open spec fn checksum_bits(e: Seq<u8>) -> Seq<bool> {
    num_bits(sha256_of(e)[0] as int, 8).take(e.len() as int / 4)
}

/// Entropy bits followed by checksum bits.
pub open spec fn phrase_bits(e: Seq<u8>) -> Seq<bool> {
    entropy_bits(e) + checksum_bits(e)
}

/// The word indices of the mnemonic of `e`.
pub open spec fn phrase_indices(e: Seq<u8>) -> Seq<int> {
    bit_groups(phrase_bits(e), 11)
}

/// The mnemonic words of `e`.
pub open spec fn phrase_words(e: Seq<u8>) -> Seq<Seq<u8>> {
    Seq::new(phrase_indices(e).len(), |m: int| english_word(phrase_indices(e)[m]))
}

/// Every word of `ws` occurs in the word list.
pub open spec fn words_known(ws: Seq<Seq<u8>>) -> bool {
    forall|k: int| 0 <= k < ws.len() ==> word_known(#[trigger] ws[k])
}

/// The indices of the words of `ws` in the word list.
pub open spec fn word_idxs(ws: Seq<Seq<u8>>) -> Seq<int> {
    Seq::new(ws.len(), |k: int| word_idx(ws[k]))
}

/// The bit string a sequence of known words stands for.
pub open spec fn words_bits(ws: Seq<Seq<u8>>) -> Seq<bool> {
    group_bits(word_idxs(ws), 11)
}

/// How many of the words' bits are entropy bits.
pub open spec fn entropy_bit_count(wc: int) -> int {
    32 * wc / 3
}

/// The entropy bytes a sequence of known words stands for.
pub open spec fn decoded_entropy(ws: Seq<Seq<u8>>) -> Seq<u8> {
    vals_bytes(bit_groups(words_bits(ws).take(entropy_bit_count(ws.len() as int)), 8))
}

/// The embedded checksum bits equal the ones recomputed from the
/// decoded entropy.
pub open spec fn checksum_matches(ws: Seq<Seq<u8>>) -> bool {
    words_bits(ws).skip(entropy_bit_count(ws.len() as int)) == checksum_bits(decoded_entropy(ws))
}

/// Builds the bit string of a byte string.
fn bytes_to_bits(bytes: &Vec<u8>) -> (r: Vec<bool>)
    ensures
        r@ == entropy_bits(bytes@),
        r@.len() == 8 * bytes@.len(),
{
    let mut r: Vec<bool> = Vec::new();
    let mut i: usize = 0;
    proof {
        assert(byte_vals(bytes@.take(0)) =~= Seq::<int>::empty());
        assert(r@ =~= group_bits(byte_vals(bytes@.take(0)), 8));
    }
    while i < bytes.len()
        invariant
            i <= bytes@.len(),
            r@ == group_bits(byte_vals(bytes@.take(i as int)), 8),
            r@.len() == 8 * i,
        decreases bytes@.len() - i,
    {
        let mut chunk = num_to_bits(bytes[i] as u16, 8);
        proof {
            assert(byte_vals(bytes@.take(i + 1)) =~= byte_vals(bytes@.take(i as int)).push(
                bytes@[i as int] as int,
            ));
            lemma_group_bits_push(byte_vals(bytes@.take(i as int)), 8, bytes@[i as int] as int);
            lemma_num_bits_len(bytes@[i as int] as int, 8);
        }
        r.append(&mut chunk);
        i = i + 1;
    }
    proof {
        assert(bytes@.take(bytes@.len() as int) =~= bytes@);
    }
    r
}

/// Reads the first `nbits` bits of `bits` as bytes.
fn bits_prefix_bytes(bits: &Vec<bool>, nbits: usize) -> (r: Vec<u8>)
    requires
        nbits % 8 == 0,
        nbits <= bits@.len(),
    ensures
        r@ == vals_bytes(bit_groups(bits@.take(nbits as int), 8)),
        r@.len() == nbits / 8,
{
    let ghost target = vals_bytes(bit_groups(bits@.take(nbits as int), 8));
    let count: usize = nbits / 8;
    let mut r: Vec<u8> = Vec::new();
    let mut i: usize = 0;
    while i < count
        invariant
            count == nbits / 8,
            nbits % 8 == 0,
            nbits <= bits@.len(),
            i <= count,
            r@.len() == i,
            target == vals_bytes(bit_groups(bits@.take(nbits as int), 8)),
            target.len() == count,
            forall|j: int| 0 <= j < i ==> r@[j] == target[j],
        decreases count - i,
    {
        let v = bits_range_val(bits, 8 * i, 8);
        proof {
            let sub = bits@.subrange(8 * i as int, 8 * i as int + 8);
            lemma_bits_val_bound(sub);
            lemma2_to64();
            assert(bits@.take(nbits as int).subrange(8 * i as int, 8 * i + 8) =~= sub);
        }
        r.push(v as u8);
        i = i + 1;
    }
    proof {
        assert(r@ =~= target);
    }
    r
}

/// Encodes entropy as its checksummed mnemonic.
pub fn encode(entropy: &Vec<u8>) -> (r: Result<Vec<Vec<u8>>, ShardError>)
    ensures
        r is Ok <==> valid_entropy_len(entropy@.len() as int),
        r is Ok ==> r->Ok_0.deep_view() == phrase_words(entropy@),
        r is Err ==> r->Err_0 is InvalidEntropyLength,
{
    let n = entropy.len();
    if !(n == 16 || n == 20 || n == 24 || n == 28 || n == 32) {
        return Err(ShardError::InvalidEntropyLength);
    }
    let mut bits = bytes_to_bits(entropy);
    let hash = sha256(entropy);
    let hb = num_to_bits(hash[0] as u16, 8);
    proof {
        lemma_num_bits_len(hash@[0] as int, 8);
    }
    let cs: usize = n / 4;
    let mut k: usize = 0;
    proof {
        assert(bits@ =~= entropy_bits(entropy@) + hb@.take(0));
    }
    while k < cs
        invariant
            k <= cs,
            cs <= 8,
            hb@ == num_bits(hash@[0] as int, 8),
            hb@.len() == 8,
            bits@ == entropy_bits(entropy@) + hb@.take(k as int),
            bits@.len() == 8 * entropy@.len() + k,
        decreases cs - k,
    {
        let b = hb[k];
        bits.push(b);
        proof {
            assert(bits@ =~= entropy_bits(entropy@) + hb@.take(k + 1));
        }
        k = k + 1;
    }
    proof {
        assert(hb@.take(cs as int) == checksum_bits(entropy@));
        assert(bits@ == phrase_bits(entropy@));
    }
    let wc: usize = 3 * n / 4;
    let ghost idxs = phrase_indices(entropy@);
    proof {
        assert(bits@.len() == 11 * wc);
        assert(idxs.len() == wc);
    }
    let list = english_wordlist();
    let mut words: Vec<Vec<u8>> = Vec::new();
    let mut m: usize = 0;
    while m < wc
        invariant
            m <= wc,
            wc <= 24,
            bits@ == phrase_bits(entropy@),
            bits@.len() == 11 * wc,
            idxs == phrase_indices(entropy@),
            idxs.len() == wc,
            list@.len() == 2048,
            forall|i: int| 0 <= i < 2048 ==> #[trigger] list@[i]@ == english_word(i),
            words@.len() == m,
            forall|j: int| 0 <= j < m ==> words@[j]@ == phrase_words(entropy@)[j],
        decreases wc - m,
    {
        let v = bits_range_val(&bits, 11 * m, 11);
        proof {
            let sub = bits@.subrange(11 * m as int, 11 * m as int + 11);
            lemma_bits_val_bound(sub);
            lemma2_to64();
            assert(v as int == idxs[m as int]);
        }
        let w = list[v as usize].clone();
        proof {
            assert(w@ =~= list@[v as int]@);
        }
        words.push(w);
        m = m + 1;
    }
    proof {
        assert forall|j: int| 0 <= j < wc implies words.deep_view()[j] == phrase_words(
            entropy@,
        )[j] by {
            assert(words@[j].deep_view() =~= words@[j]@);
        }
        assert(words.deep_view() =~= phrase_words(entropy@));
    }
    Ok(words)
}

/// Decodes a mnemonic back to its entropy, checking word count,
/// word membership and checksum.
pub fn decode(words: &Vec<Vec<u8>>) -> (r: Result<Vec<u8>, ShardError>)
    ensures
        r is Ok <==> valid_word_count(words@.len() as int) && words_known(words.deep_view())
            && checksum_matches(words.deep_view()),
        r is Ok ==> r->Ok_0@ == decoded_entropy(words.deep_view()),
        (r is Err && r->Err_0 is InvalidWordCount) <==> !valid_word_count(words@.len() as int),
        (r is Err && r->Err_0 is UnknownWord) <==> (valid_word_count(words@.len() as int)
            && !words_known(words.deep_view())),
        r matches Err(ShardError::UnknownWord(w)) ==> exists|k: int|
            0 <= k < words@.len() && w@ == words.deep_view()[k] && !word_known(
                words.deep_view()[k],
            ) && (forall|j: int| 0 <= j < k ==> word_known(#[trigger] words.deep_view()[j])),
        (r is Err && r->Err_0 is ChecksumMismatch) <==> (valid_word_count(words@.len() as int)
            && words_known(words.deep_view()) && !checksum_matches(words.deep_view())),
{
    let n = words.len();
    let ghost wsv = words.deep_view();
    if !(n == 12 || n == 15 || n == 18 || n == 21 || n == 24) {
        return Err(ShardError::InvalidWordCount);
    }
    let list = english_wordlist();
    let mut bits: Vec<bool> = Vec::new();
    let mut k: usize = 0;
    proof {
        assert(word_idxs(wsv).take(0) =~= Seq::<int>::empty());
        assert(bits@ =~= group_bits(word_idxs(wsv).take(0), 11));
    }
    while k < n
        invariant
            k <= n,
            n == words@.len(),
            valid_word_count(n as int),
            wsv == words.deep_view(),
            list@.len() == 2048,
            forall|i: int| 0 <= i < 2048 ==> #[trigger] list@[i]@ == english_word(i),
            forall|i: int, j: int| 0 <= i < j < 2048 ==> list@[i]@ != list@[j]@,
            forall|j: int| 0 <= j < k ==> word_known(#[trigger] wsv[j]),
            bits@ == group_bits(word_idxs(wsv).take(k as int), 11),
            bits@.len() == 11 * k,
        decreases n - k,
    {
        let w = &words[k];
        proof {
            assert(wsv[k as int] =~= w@);
        }
        match find_word(&list, w) {
            Some(i) => {
                proof {
                    assert(english_word(i as int) == w@);
                    assert(word_known(wsv[k as int]));
                    let k0 = word_idx(w@);
                    assert(0 <= k0 < 2048 && english_word(k0) == w@);
                    if k0 < i as int {
                        assert(list@[k0]@ != list@[i as int]@);
                        assert(false);
                    } else if k0 > i as int {
                        assert(list@[i as int]@ != list@[k0]@);
                        assert(false);
                    }
                    assert(word_idx(wsv[k as int]) == i as int);
                    assert(word_idxs(wsv).take(k + 1) =~= word_idxs(wsv).take(k as int).push(
                        i as int,
                    ));
                    lemma_group_bits_push(word_idxs(wsv).take(k as int), 11, i as int);
                    lemma_num_bits_len(i as int, 11);
                }
                let mut chunk = num_to_bits(i, 11);
                bits.append(&mut chunk);
            },
            None => {
                proof {
                    if word_known(wsv[k as int]) {
                        let i0 = choose|i0: int|
                            0 <= i0 < 2048 && english_word(i0) == wsv[k as int];
                        assert(list@[i0]@ == english_word(i0));
                        assert(false);
                    }
                }
                return Err(ShardError::UnknownWord(words[k].clone()));
            },
        }
        k = k + 1;
    }
    proof {
        assert(word_idxs(wsv).take(n as int) =~= word_idxs(wsv));
        assert(bits@ == words_bits(wsv));
        assert(words_known(wsv));
    }
    let ent_bits: usize = 32 * n / 3;
    proof {
        assert(ent_bits as int == entropy_bit_count(n as int));
        assert(ent_bits % 8 == 0 && ent_bits <= 11 * n);
    }
    let entropy = bits_prefix_bytes(&bits, ent_bits);
    proof {
        assert(entropy@ == decoded_entropy(wsv));
    }
    let hash = sha256(&entropy);
    let hb = num_to_bits(hash[0] as u16, 8);
    proof {
        lemma_num_bits_len(hash@[0] as int, 8);
    }
    let cs: usize = n / 3;
    let mut ok = true;
    let mut t: usize = 0;
    while t < cs
        invariant
            t <= cs,
            cs == n / 3,
            n == words@.len(),
            valid_word_count(n as int),
            wsv == words.deep_view(),
            words_known(wsv),
            bits@ == words_bits(wsv),
            entropy@ == decoded_entropy(wsv),
            hb@ == num_bits(sha256_of(entropy@)[0] as int, 8),
            ent_bits as int == entropy_bit_count(n as int),
            ent_bits == 32 * n / 3,
            bits@.len() == 11 * n,
            hb@.len() == 8,
            cs <= 8,
            ok <==> (forall|j: int| 0 <= j < t ==> bits@[ent_bits + j] == hb@[j]),
        decreases cs - t,
    {
        if bits[ent_bits + t] != hb[t] {
            ok = false;
        }
        t = t + 1;
    }
    proof {
        let emb = words_bits(wsv).skip(ent_bits as int);
        let want = checksum_bits(decoded_entropy(wsv));
        assert(decoded_entropy(wsv).len() == ent_bits / 8);
        assert(want == num_bits(sha256_of(entropy@)[0] as int, 8).take(cs as int));
        if ok {
            assert(emb =~= want);
        } else {
            let j = choose|j: int| 0 <= j < cs && bits@[ent_bits + j] != hb@[j];
            assert(emb[j] != want[j]);
            assert(emb != want);
        }
        assert(ok <==> checksum_matches(wsv));
    }
    if !ok {
        return Err(ShardError::ChecksumMismatch);
    }
    Ok(entropy)
}

/// Words whose entropy bits are exactly the bits of `e` decode to `e`.
proof fn lemma_decoded_from_entropy_bits(e: Seq<u8>, ws: Seq<Seq<u8>>)
    requires
        entropy_bit_count(ws.len() as int) == 8 * e.len(),
        words_bits(ws).take(entropy_bit_count(ws.len() as int)) == entropy_bits(e),
    ensures
        decoded_entropy(ws) == e,
{
    assert forall|i: int| 0 <= i < e.len() implies 0 <= #[trigger] byte_vals(e)[i] < pow2(8) by {
        lemma2_to64();
    }
    lemma_bit_groups_of_group_bits(byte_vals(e), 8);
    assert(vals_bytes(byte_vals(e)) =~= e);
}

/// A valid word count decodes to a valid entropy length: three
/// words carry four entropy bytes.
pub proof fn lemma_decoded_entropy_len(ws: Seq<Seq<u8>>)
    requires
        valid_word_count(ws.len() as int),
    ensures
        decoded_entropy(ws).len() == 4 * ws.len() / 3,
        valid_entropy_len(decoded_entropy(ws).len() as int),
{
    lemma_group_bits_len(word_idxs(ws), 11);
    assert(words_bits(ws).len() == 11 * ws.len());
    assert(words_bits(ws).take(entropy_bit_count(ws.len() as int)).len() == entropy_bit_count(
        ws.len() as int,
    ));
}

/// Round trip: the mnemonic of any valid entropy has a valid word
/// count, all its words in the list, a matching checksum, and
/// decodes back to the same entropy. The word list's words are
/// pairwise distinct, which the list wrapper's contract states; the
/// hypothesis repeats it here.
pub proof fn lemma_codec_round_trip(e: Seq<u8>)
    requires
        valid_entropy_len(e.len() as int),
        forall|i: int, j: int| 0 <= i < j < 2048 ==> english_word(i) != english_word(j),
    ensures
        valid_word_count(phrase_words(e).len() as int),
        words_known(phrase_words(e)),
        checksum_matches(phrase_words(e)),
        decoded_entropy(phrase_words(e)) == e,
{
    let l = e.len() as int;
    let pb = phrase_bits(e);
    let idx = phrase_indices(e);
    let ws = phrase_words(e);
    lemma_group_bits_len(byte_vals(e), 8);
    lemma_num_bits_len(sha256_of(e)[0] as int, 8);
    assert(entropy_bits(e).len() == 8 * l);
    assert(checksum_bits(e).len() == l / 4);
    assert(pb.len() == 8 * l + l / 4);
    assert(idx.len() == (8 * l + l / 4) / 11);
    let w = idx.len() as int;
    assert(valid_word_count(w));
    assert forall|m: int| 0 <= m < w implies 0 <= #[trigger] idx[m] < 2048 by {
        lemma_bits_val_bound(pb.subrange(11 * m, 11 * m + 11));
        lemma2_to64();
    }
    assert forall|m: int| 0 <= m < w implies word_known(#[trigger] ws[m]) by {
        assert(ws[m] == english_word(idx[m]));
    }
    assert forall|m: int| 0 <= m < w implies word_idxs(ws)[m] == idx[m] by {
        assert(ws[m] == english_word(idx[m]));
        let k0 = word_idx(ws[m]);
        assert(0 <= k0 < 2048 && english_word(k0) == ws[m]);
        if k0 < idx[m] {
            assert(english_word(k0) != english_word(idx[m]));
        } else if k0 > idx[m] {
            assert(english_word(idx[m]) != english_word(k0));
        }
    }
    assert(word_idxs(ws) =~= idx);
    assert(pb.len() % 11 == 0);
    lemma_group_bits_of_bit_groups(pb, 11);
    assert(words_bits(ws) == pb);
    assert(entropy_bit_count(w) == 8 * l);
    assert(words_bits(ws).take(8 * l) =~= entropy_bits(e));
    lemma_decoded_from_entropy_bits(e, ws);
    assert(words_bits(ws).skip(8 * l) =~= checksum_bits(e));
    assert(checksum_matches(ws));
}

/// Checksum sensitivity: words with the right count whose entropy
/// bits are exactly those of `e` but whose checksum bits differ —
/// for instance, those of a valid mnemonic with one checksum bit
/// flipped — fail the checksum test.
pub proof fn lemma_checksum_sensitivity(e: Seq<u8>, ws: Seq<Seq<u8>>)
    requires
        valid_entropy_len(e.len() as int),
        entropy_bit_count(ws.len() as int) == 8 * e.len(),
        words_bits(ws).take(entropy_bit_count(ws.len() as int)) == entropy_bits(e),
        words_bits(ws).skip(entropy_bit_count(ws.len() as int)) != checksum_bits(e),
    ensures
        !checksum_matches(ws),
{
    lemma_decoded_from_entropy_bits(e, ws);
}

} // verus!


