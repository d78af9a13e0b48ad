//! The compact binary encoding of a catalog: the number of entries, then
//! the entries in order, each a name and a fingerprint, every length in
//! eight bytes and every number with its lowest byte first. The `bincode`
//! crate writes and reads the bytes; what it reads from bytes is given a
//! name here.

use vstd::prelude::*;
use vstd::bytes::{spec_u32_to_le_bytes, spec_u64_to_le_bytes};
use vstd::utf8::encode_utf8;
use crate::detecting::{DiskData, LicenseEntry};

verus! {

/// A length as the encoding writes it: eight bytes, the lowest first.
pub open spec fn length_bytes(n: nat) -> Seq<u8> {
    spec_u64_to_le_bytes(n as u64)
}

/// A text as the encoding writes it: the length of its bytes, then the
/// bytes.
pub open spec fn text_bytes(text: Seq<char>) -> Seq<u8> {
    length_bytes(encode_utf8(text).len()) + encode_utf8(text)
}

/// The hashes of a signature as the encoding writes them: four bytes each,
/// the lowest first.
pub open spec fn hashes_bytes(hashes: Seq<u32>) -> Seq<u8>
    decreases hashes.len(),
{
    if hashes.len() == 0 {
        Seq::empty()
    } else {
        hashes_bytes(hashes.drop_last()) + spec_u32_to_le_bytes(hashes.last())
    }
}

/// A signature as the encoding writes it: the number of its hashes, then
/// the hashes.
pub open spec fn signature_bytes(signature: Seq<u32>) -> Seq<u8> {
    length_bytes(signature.len()) + hashes_bytes(signature)
}

/// Entries with texts for fingerprints, one after the other: each its name,
/// then its fingerprint.
pub open spec fn text_entries_bytes(entries: Seq<(Seq<char>, Seq<char>)>) -> Seq<u8>
    decreases entries.len(),
{
    if entries.len() == 0 {
        Seq::empty()
    } else {
        text_entries_bytes(entries.drop_last()) + text_bytes(entries.last().0) + text_bytes(
            entries.last().1,
        )
    }
}

/// Entries with signatures for fingerprints, one after the other: each its
/// name, then its fingerprint.
pub open spec fn signature_entries_bytes(entries: Seq<(Seq<char>, Seq<u32>)>) -> Seq<u8>
    decreases entries.len(),
{
    if entries.len() == 0 {
        Seq::empty()
    } else {
        signature_entries_bytes(entries.drop_last()) + text_bytes(entries.last().0)
            + signature_bytes(entries.last().1)
    }
}

/// The store of entries whose fingerprints are texts: the number of
/// entries, then the entries. This is what `bincode::serialize` makes of the
/// list, and it makes it of every list.
pub open spec fn encoded_text_entries(entries: Seq<(Seq<char>, Seq<char>)>) -> Option<Seq<u8>> {
    Some(length_bytes(entries.len()) + text_entries_bytes(entries))
}

/// What `bincode::deserialize` reads from `bytes` as a list of entries whose
/// fingerprints are texts, or `None` where the bytes are no such list.
pub uninterp spec fn decoded_text_entries(bytes: Seq<u8>) -> Option<Seq<(Seq<char>, Seq<char>)>>;

/// The store of entries whose fingerprints are signatures: the number of
/// entries, then the entries. This is what `bincode::serialize` makes of the
/// list, and it makes it of every list.
pub open spec fn encoded_signature_entries(entries: Seq<(Seq<char>, Seq<u32>)>) -> Option<
    Seq<u8>,
> {
    Some(length_bytes(entries.len()) + signature_entries_bytes(entries))
}

/// What `bincode::deserialize` reads from `bytes` as a list of entries whose
/// fingerprints are signatures, or `None` where the bytes are no such list.
pub uninterp spec fn decoded_signature_entries(bytes: Seq<u8>) -> Option<
    Seq<(Seq<char>, Seq<u32>)>,
>;

/// Whether `store` is read back from `bytes` as it was written: whatever
/// list of entries was encoded as `bytes`, `store` holds that list.
pub open spec fn reads_back_texts(bytes: Seq<u8>, store: Option<Seq<(Seq<char>, Seq<char>)>>) -> bool {
    forall|entries: Seq<(Seq<char>, Seq<char>)>|
        #[trigger] encoded_text_entries(entries) == Some(bytes) ==> store == Some(entries)
}

/// Whether `store` is read back from `bytes` as it was written: whatever
/// list of entries was encoded as `bytes`, `store` holds that list.
pub open spec fn reads_back_signatures(
    bytes: Seq<u8>,
    store: Option<Seq<(Seq<char>, Seq<u32>)>>,
) -> bool {
    forall|entries: Seq<(Seq<char>, Seq<u32>)>|
        #[trigger] encoded_signature_entries(entries) == Some(bytes) ==> store == Some(entries)
}

/// The view of bytes that may be missing.
pub open spec fn bytes_view(bytes: Option<Vec<u8>>) -> Option<Seq<u8>> {
    match bytes {
        Some(b) => Some(b@),
        None => None,
    }
}

/// The view of a store that may be missing.
pub open spec fn store_view<K: DeepView>(store: Option<DiskData<K>>) -> Option<
    Seq<(Seq<char>, K::V)>,
> {
    match store {
        Some(data) => Some(data.deep_view()),
        None => None,
    }
}

/// Calls `bincode::serialize` on the entries of the store, each as the pair
/// of its name and its fingerprint. With the settings of that function every
/// length is written as eight bytes, every number with its lowest byte
/// first, and no list of texts is refused.
#[verifier::external_body]
pub(crate) fn encode_text_store(store: &DiskData<String>) -> (bytes: Option<Vec<u8>>)
    ensures
        bytes_view(bytes) == encoded_text_entries(store.deep_view()),
{
    let pairs: Vec<(&String, &String)> = store.licenses.iter().map(|e| (&e.name, &e.hash)).collect();
    bincode::serialize(&pairs).ok()
}

/// Calls `bincode::deserialize` on the bytes and hands the pairs on as
/// entries. The contract names the result and says that decoding undoes
/// encoding: bytes that `bincode::serialize` made of a list are read back as
/// that list.
#[verifier::external_body]
pub(crate) fn decode_text_store(bytes: &[u8]) -> (store: Option<DiskData<String>>)
    ensures
        store_view(store) == decoded_text_entries(bytes@),
        reads_back_texts(bytes@, store_view(store)),
{
    let pairs: Option<Vec<(String, String)>> = bincode::deserialize(bytes).ok();
    pairs.map(
        |l| DiskData { licenses: l.into_iter().map(|(name, hash)| LicenseEntry { name, hash }).collect() },
    )
}

/// Calls `bincode::serialize` on the entries of the store, each as the pair
/// of its name and its fingerprint. With the settings of that function every
/// length is written as eight bytes, every number with its lowest byte
/// first, and no list of signatures is refused.
#[verifier::external_body]
pub(crate) fn encode_signature_store(store: &DiskData<Vec<u32>>) -> (bytes: Option<Vec<u8>>)
    ensures
        bytes_view(bytes) == encoded_signature_entries(store.deep_view()),
{
    let pairs: Vec<(&String, &Vec<u32>)> = store.licenses.iter().map(|e| (&e.name, &e.hash)).collect();
    bincode::serialize(&pairs).ok()
}

/// Calls `bincode::deserialize` on the bytes and hands the pairs on as
/// entries. The contract names the result and says that decoding undoes
/// encoding: bytes that `bincode::serialize` made of a list are read back as
/// that list.
#[verifier::external_body]
pub(crate) fn decode_signature_store(bytes: &[u8]) -> (store: Option<DiskData<Vec<u32>>>)
    ensures
        store_view(store) == decoded_signature_entries(bytes@),
        reads_back_signatures(bytes@, store_view(store)),
{
    let pairs: Option<Vec<(String, Vec<u32>)>> = bincode::deserialize(bytes).ok();
    pairs.map(
        |l| DiskData { licenses: l.into_iter().map(|(name, hash)| LicenseEntry { name, hash }).collect() },
    )
}

} // verus!
