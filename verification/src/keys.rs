//! Public keys and signatures, and their base 58 texts.
use std::str::FromStr;

use vstd::prelude::*;

use crate::text::texts;

verus! {

/// The base 58 text of a 64-byte signature.
pub uninterp spec fn signature_text(signature: Seq<u8>) -> Seq<char>;

/// The base 58 text of a 32-byte public key.
pub uninterp spec fn pubkey_text(key: Seq<u8>) -> Seq<char>;

/// The public key that a text stands for, where it stands for one.
pub uninterp spec fn text_pubkey(text: Seq<char>) -> Option<Seq<u8>>;

/// Calls `to_string` of `solana_sdk::signature::Signature`, which writes the 64 bytes in base 58.
/// The text depends on the bytes alone; [`signature_text`] names it.
#[verifier::external_body]
pub(crate) fn signature_to_string(signature: &[u8; 64]) -> (text: String)
    ensures
        text@ == signature_text(signature@),
{
    solana_sdk::signature::Signature::from(*signature).to_string()
}

/// Calls `to_string` of `solana_sdk::pubkey::Pubkey`, which writes the 32 bytes in base 58. The
/// text depends on the bytes alone; [`pubkey_text`] names it.
#[verifier::external_body]
pub(crate) fn pubkey_to_string(key: &[u8; 32]) -> (text: String)
    ensures
        text@ == pubkey_text(key@),
{
    solana_sdk::pubkey::Pubkey::from(*key).to_string()
}

/// Calls `from_str` of `solana_sdk::pubkey::Pubkey`, which reads 32 bytes written in base 58 and
/// refuses every other text. The outcome depends on the text alone; [`text_pubkey`] names it.
#[verifier::external_body]
pub(crate) fn pubkey_from_str(text: &str) -> (key: Option<[u8; 32]>)
    ensures
        (match key {
            Some(bytes) => text_pubkey(text@) == Some(bytes@),
            None => text_pubkey(text@) is None,
        }),
{
    solana_sdk::pubkey::Pubkey::from_str(text).ok().map(|key| key.to_bytes())
}

/// Whether two public keys are the same.
pub fn same_key(a: &[u8; 32], b: &[u8; 32]) -> (same: bool)
    ensures
        same == (a@ == b@),
{
    let mut i: usize = 0;
    while i < 32
        invariant
            i <= 32,
            forall|j: int| 0 <= j < i ==> a@[j] == b@[j],
        decreases 32 - i,
    {
        if a[i] != b[i] {
            return false;
        }
        i = i + 1;
    }
    assert(a@ =~= b@);
    true
}

/// The byte sequences of a list of public keys.
pub open spec fn key_views(keys: Seq<[u8; 32]>) -> Seq<Seq<u8>> {
    keys.map_values(|key: [u8; 32]| key@)
}

/// Whether `keys` holds `key`.
pub fn contains_key(keys: &Vec<[u8; 32]>, key: &[u8; 32]) -> (found: bool)
    ensures
        found == key_views(keys@).contains(key@),
        found <==> exists|i: int| 0 <= i < keys@.len() && (#[trigger] keys@[i])@ == key@,
{
    let mut i: usize = 0;
    while i < keys.len()
        invariant
            i <= keys@.len(),
            forall|j: int| 0 <= j < i ==> (#[trigger] keys@[j])@ != key@,
        decreases keys@.len() - i,
    {
        if same_key(&keys[i], key) {
            assert(key_views(keys@)[i as int] == key@);
            return true;
        }
        i = i + 1;
    }
    proof {
        if key_views(keys@).contains(key@) {
            let j = key_views(keys@).index_of(key@);
            assert(keys@[j]@ == key@);
        }
    }
    false
}

/// The byte sequences of a list of optional public keys.
pub open spec fn optional_key_views(keys: Seq<Option<[u8; 32]>>) -> Seq<Option<Seq<u8>>> {
    keys.map_values(
        |key: Option<[u8; 32]>|
            match key {
                Some(bytes) => Some(bytes@),
                None => None,
            },
    )
}

/// The public keys that a list of texts stands for.
pub open spec fn text_pubkeys(texts: Seq<Seq<char>>) -> Seq<Option<Seq<u8>>> {
    texts.map_values(|text: Seq<char>| text_pubkey(text))
}

/// Reads each text of a list as a public key.
pub fn parse_pubkeys(strings: &Vec<String>) -> (keys: Vec<Option<[u8; 32]>>)
    ensures
        optional_key_views(keys@) == text_pubkeys(texts(strings@)),
        keys@.len() == strings@.len(),
        forall|i: int|
            0 <= i < keys@.len() ==> match #[trigger] keys@[i] {
                Some(key) => text_pubkey(strings@[i]@) == Some(key@),
                None => text_pubkey(strings@[i]@) is None,
            },
{
    let mut keys: Vec<Option<[u8; 32]>> = Vec::new();
    let mut i: usize = 0;
    while i < strings.len()
        invariant
            i <= strings@.len(),
            keys@.len() == i,
            forall|j: int|
                0 <= j < i ==> #[trigger] optional_key_views(keys@)[j] == text_pubkey(
                    strings@[j]@,
                ),
        decreases strings@.len() - i,
    {
        let ghost before = keys@;
        keys.push(pubkey_from_str(strings[i].as_str()));
        assert forall|j: int| 0 <= j < i + 1 implies #[trigger] optional_key_views(keys@)[j]
            == text_pubkey(strings@[j]@) by {
            if j < i {
                assert(optional_key_views(before)[j] == optional_key_views(keys@)[j]);
            }
        }
        i = i + 1;
    }
    assert(optional_key_views(keys@) =~= text_pubkeys(texts(strings@)));
    assert forall|j: int| 0 <= j < keys@.len() implies match #[trigger] keys@[j] {
        Some(key) => text_pubkey(strings@[j]@) == Some(key@),
        None => text_pubkey(strings@[j]@) is None,
    } by {
        assert(optional_key_views(keys@)[j] == text_pubkey(strings@[j]@));
    }
    keys
}

/// The texts of a list of public keys.
pub open spec fn pubkey_texts(keys: Seq<[u8; 32]>) -> Seq<Seq<char>> {
    keys.map_values(|key: [u8; 32]| pubkey_text(key@))
}

/// Writes each public key of a list.
pub fn pubkeys_to_strings(keys: &Vec<[u8; 32]>) -> (strings: Vec<String>)
    ensures
        texts(strings@) == pubkey_texts(keys@),
        strings@.len() == keys@.len(),
        forall|i: int|
            0 <= i < keys@.len() ==> (#[trigger] strings@[i])@ == pubkey_text(keys@[i]@),
{
    let mut strings: Vec<String> = Vec::new();
    let mut i: usize = 0;
    while i < keys.len()
        invariant
            i <= keys@.len(),
            strings@.len() == i,
            forall|j: int| 0 <= j < i ==> (#[trigger] strings@[j])@ == pubkey_text(keys@[j]@),
        decreases keys@.len() - i,
    {
        strings.push(pubkey_to_string(&keys[i]));
        i = i + 1;
    }
    assert(texts(strings@) =~= pubkey_texts(keys@));
    strings
}

/// A list of public keys has one byte sequence and one text for each key, in the same order; and a
/// list of texts has one key, or gap, for each text.
pub proof fn lemma_key_lists(
    keys: Seq<[u8; 32]>,
    optional_keys: Seq<Option<[u8; 32]>>,
    texts: Seq<Seq<char>>,
)
    ensures
        key_views(keys).len() == keys.len(),
        forall|i: int| 0 <= i < keys.len() ==> #[trigger] key_views(keys)[i] == keys[i]@,
        pubkey_texts(keys).len() == keys.len(),
        forall|i: int|
            0 <= i < keys.len() ==> #[trigger] pubkey_texts(keys)[i] == pubkey_text(keys[i]@),
        optional_key_views(optional_keys).len() == optional_keys.len(),
        forall|i: int|
            0 <= i < optional_keys.len() ==> match optional_keys[i] {
                Some(key) => #[trigger] optional_key_views(optional_keys)[i] == Some(key@),
                None => optional_key_views(optional_keys)[i] is None,
            },
        text_pubkeys(texts).len() == texts.len(),
        forall|i: int|
            0 <= i < texts.len() ==> #[trigger] text_pubkeys(texts)[i] == text_pubkey(texts[i]),
{
}

} // verus!
