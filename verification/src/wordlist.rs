//! The fixed 2048-word English vocabulary, and lookups in it. The
//! list itself comes from the bip39 crate; each word is handled as
//! its byte string.

use vstd::prelude::*;

verus! {

/// The word at index `i` of the BIP39 English word list, as bytes.
pub uninterp spec fn english_word(i: int) -> Seq<u8>;

/// A word that occurs in the English word list.
pub open spec fn word_known(w: Seq<u8>) -> bool {
    exists|i: int| 0 <= i < 2048 && english_word(i) == w
}

/// The index of a known word in the English word list.
pub open spec fn word_idx(w: Seq<u8>) -> int {
    choose|i: int| 0 <= i < 2048 && english_word(i) == w
}

/// Relies on bip39::Language::word_list: the English list holds
/// exactly 2048 pairwise distinct words (the crate looks them up by
/// binary search and its tests check the index round trip for every
/// word).
#[verifier::external_body]
pub(crate) fn english_wordlist() -> (r: Vec<Vec<u8>>)
    ensures
        r@.len() == 2048,
        forall|i: int| 0 <= i < 2048 ==> #[trigger] r@[i]@ == english_word(i),
        forall|i: int, j: int| 0 <= i < j < 2048 ==> r@[i]@ != r@[j]@,
{
    bip39::Language::English.word_list().iter().map(|w| w.as_bytes().to_vec()).collect()
}

/// Compares two byte strings.
pub(crate) fn bytes_eq(a: &Vec<u8>, b: &Vec<u8>) -> (r: bool)
    ensures
        r <==> a@ == b@,
{
    if a.len() != b.len() {
        return false;
    }
    let mut i: usize = 0;
    while i < a.len()
        invariant
            a@.len() == b@.len(),
            i <= a@.len(),
            forall|j: int| 0 <= j < i ==> a@[j] == b@[j],
        decreases a@.len() - i,
    {
        if a[i] != b[i] {
            return false;
        }
        i = i + 1;
    }
    proof {
        assert(a@ =~= b@);
    }
    true
}

/// Finds a word in the list, if it is there.
pub(crate) fn find_word(list: &Vec<Vec<u8>>, w: &Vec<u8>) -> (r: Option<u16>)
    requires
        list@.len() == 2048,
    ensures
        match r {
            Some(i) => 0 <= i < 2048 && list@[i as int]@ == w@,
            None => forall|j: int| 0 <= j < 2048 ==> list@[j]@ != w@,
        },
{
    let mut i: usize = 0;
    while i < 2048
        invariant
            list@.len() == 2048,
            i <= 2048,
            forall|j: int| 0 <= j < i ==> list@[j]@ != w@,
        decreases 2048 - i,
    {
        if bytes_eq(&list[i], w) {
            return Some(i as u16);
        }
        i = i + 1;
    }
    None
}

} // verus!
