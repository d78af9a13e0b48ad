//! The backend that sketches a text as a MinHash signature over its
//! shingles and keeps the catalog in a banded index. Signatures and index
//! are those of the `gaoya` crate: the index hands out candidates, and what
//! is reported of them is decided here.

use vstd::prelude::*;
use gaoya::minhash::{MinHashIndex, MinHasher, MinHasher32};
use gaoya::text::shingle_text;
use crate::detecting::{
    names_of, DetectionError, DiskData, LicenseEntry, LicenseListActions, LicenseMatch,
    MatchView, QueryResult, QueryView, query_view,
};
use crate::ranking::{
    holds, insert_match, is_descending, lemma_insert_ranked_distinct,
    lemma_rank_is_sorted_permutation, lemma_rank_keeps, lemma_rank_members, names_distinct, rank,
};
use crate::normalization::Normalization;
use crate::ordering::{
    lemma_name_order_is_strict, lemma_name_order_is_total, lemma_name_order_is_transitive,
    name_before, name_less,
};
use crate::persistence::{
    bytes_view, decode_signature_store, decoded_signature_entries, encode_signature_store,
    encoded_signature_entries, reads_back_signatures,
};
use crate::similarity::{
    agreements, lemma_agreements_bounded, lemma_share_bounded, share_hundredths, share_of,
};

verus! {

/// The number of bands of a catalog made with the defaults.
pub const DEFAULT_NUM_BANDS: usize = 42;

/// The width of a band of a catalog made with the defaults.
pub const DEFAULT_BAND_WIDTH: usize = 3;

/// The lowest similarity, in percent, that a catalog made with the defaults
/// reports.
pub const DEFAULT_THRESHOLD: u8 = 50;

/// The length of a shingle of a catalog made with the defaults.
pub const DEFAULT_SHINGLE_SIZE: usize = 50;

/// A name and a signature, as contracts see an entry.
pub type SignatureEntry = (Seq<char>, Seq<u32>);

/// The banded index of the `gaoya` crate, keyed by name.
#[verifier::external_body]
pub struct SignatureIndex {
    inner: MinHashIndex<u32, String>,
}

/// The signatures that an index holds, by name.
pub uninterp spec fn index_entries(index: SignatureIndex) -> Map<Seq<char>, Seq<u32>>;

/// The number of bands that an index was made with.
pub uninterp spec fn index_bands(index: SignatureIndex) -> nat;

/// The width of a band that an index was made with.
pub uninterp spec fn index_band_width(index: SignatureIndex) -> nat;

/// What `MinHasher32::new(num_hashes)` makes of the shingles of `text` that
/// are `shingle_size` characters long.
pub uninterp spec fn minhash_signature(num_hashes: nat, shingle_size: nat, text: Seq<char>) -> Seq<
    u32,
>;

/// The `k`-th band of a signature.
pub open spec fn band_of(signature: Seq<u32>, width: nat, k: int) -> Seq<u32> {
    signature.subrange(k * width, (k + 1) * width)
}

/// Whether two signatures of `bands * width` hashes agree on a whole band.
pub open spec fn shares_band(a: Seq<u32>, b: Seq<u32>, bands: nat, width: nat) -> bool {
    &&& a.len() == bands * width
    &&& b.len() == bands * width
    &&& exists|k: int| 0 <= k < bands && #[trigger] band_of(a, width, k) == band_of(b, width, k)
}

/// Calls `MinHashIndex::new` for an index of `num_bands` bands of
/// `band_width` hashes, with a threshold of zero: the index then turns no
/// candidate away for its similarity, which is left to the catalog. The new
/// index is empty.
#[verifier::external_body]
pub(crate) fn index_new(num_bands: usize, band_width: usize) -> (index: SignatureIndex)
    requires
        band_width > 0,
        num_bands * band_width <= usize::MAX,
    ensures
        index_entries(index).dom() == Set::<Seq<char>>::empty(),
        index_bands(index) == num_bands,
        index_band_width(index) == band_width,
{
    SignatureIndex { inner: MinHashIndex::new(num_bands, band_width, 0u8.into()) }
}

/// Calls `MinHashIndex::insert`, which refuses a signature of another
/// length than the index was made for. The name is then bound to the
/// signature. (In a debug build the crate asserts that no band hashes to
/// zero. The hash has 64 bits and a seed of the index's own, so that no
/// signature can be named for which it does; the contracts on the index
/// leave this aside.)
#[verifier::external_body]
pub(crate) fn index_insert(index: &mut SignatureIndex, name: String, signature: Vec<u32>)
    requires
        signature.len() == index_bands(*old(index)) * index_band_width(*old(index)),
    ensures
        index_entries(*final(index)) == index_entries(*old(index)).insert(name@, signature@),
        index_bands(*final(index)) == index_bands(*old(index)),
        index_band_width(*final(index)) == index_band_width(*old(index)),
    no_unwind
{
    index.inner.insert(name, signature);
}

/// Calls `MinHashIndex::remove`. The name is then unbound.
#[verifier::external_body]
pub(crate) fn index_remove(index: &mut SignatureIndex, name: &String)
    ensures
        index_entries(*final(index)) == index_entries(*old(index)).remove(name@),
        index_bands(*final(index)) == index_bands(*old(index)),
        index_band_width(*final(index)) == index_band_width(*old(index)),
    no_unwind
{
    index.inner.remove(name);
}

/// Calls `MinHashIndex::get_signature` and copies what it finds. A stored
/// signature has the length that the index was made for: `insert` takes no
/// other.
#[verifier::external_body]
pub(crate) fn index_signature(index: &SignatureIndex, name: &String) -> (signature: Option<
    Vec<u32>,
>)
    ensures
        signature is Some == index_entries(*index).contains_key(name@),
        signature matches Some(s) ==> s@ == index_entries(*index)[name@],
        signature matches Some(s) ==> s.len() == index_bands(*index) * index_band_width(*index),
{
    index.inner.get_signature(name).cloned()
}

/// Calls `MinHashIndex::query_owned`, which refuses a signature of another
/// length than the index was made for. The candidates come in no order.
/// Each is a name of the index, none comes twice, and a name whose signature
/// shares a band with the queried one is among them: it lies in that band's
/// bucket.
#[verifier::external_body]
pub(crate) fn index_candidates(index: &SignatureIndex, signature: &Vec<u32>) -> (names: Vec<
    String,
>)
    requires
        signature.len() == index_bands(*index) * index_band_width(*index),
    ensures
        forall|i: int|
            0 <= i < names.len() ==> index_entries(*index).contains_key(#[trigger] names[i]@),
        forall|i: int, j: int| 0 <= i < j < names.len() ==> names[i]@ != names[j]@,
        forall|name: Seq<char>|
            index_entries(*index).contains_key(name) && shares_band(
                #[trigger] index_entries(*index)[name],
                signature@,
                index_bands(*index),
                index_band_width(*index),
            ) ==> exists|i: int| 0 <= i < names.len() && names[i]@ == name,
{
    index.inner.query_owned(signature).into_iter().collect()
}

/// Calls `MinHashIndex::get_id_signature_map` and copies the map out, in
/// the order in which it is walked: each name once, with its signature.
/// Each signature has the length that the index was made for: `insert`
/// takes no other.
#[verifier::external_body]
pub(crate) fn index_list(index: &SignatureIndex) -> (list: Vec<(String, Vec<u32>)>)
    ensures
        forall|i: int|
            0 <= i < list.len() ==> index_entries(*index).contains_key(#[trigger] list[i].0@)
                && index_entries(*index)[list[i].0@] == list[i].1@,
        forall|i: int, j: int| 0 <= i < j < list.len() ==> list[i].0@ != list[j].0@,
        forall|name: Seq<char>| #[trigger]
            index_entries(*index).contains_key(name) ==> exists|i: int|
                0 <= i < list.len() && list[i].0@ == name,
        forall|i: int|
            0 <= i < list.len() ==> (#[trigger] list[i]).1.len() == index_bands(*index)
                * index_band_width(*index),
{
    index.inner.get_id_signature_map().iter().map(|(name, s)| (name.clone(), s.clone())).collect()
}

/// Calls `MinHasher32::new`, `shingle_text` and
/// `MinHasher::create_signature`: the signature of the text's shingles. It
/// has one hash for each that was asked for. A shingle size of zero is left
/// out: the shingles of an empty text would then never end.
#[verifier::external_body]
pub(crate) fn text_signature(num_hashes: usize, shingle_size: usize, text: &str) -> (signature:
    Vec<u32>)
    requires
        shingle_size > 0,
    ensures
        signature@ == minhash_signature(num_hashes as nat, shingle_size as nat, text@),
        signature.len() == num_hashes,
{
    MinHasher32::new(num_hashes).create_signature(shingle_text(text, shingle_size))
}

/// Whether the share of agreeing hashes reaches `threshold` percent.
pub open spec fn similar_enough(stored: Seq<u32>, query: Seq<u32>, threshold: u8) -> bool {
    agreements(stored, query, query.len()) * 100 >= threshold * query.len()
}

/// Whether a stored signature is reported for a queried one: the two share a
/// band, which makes the stored one a candidate, and are similar enough.
pub open spec fn qualifies(
    stored: Seq<u32>,
    query: Seq<u32>,
    bands: nat,
    width: nat,
    threshold: u8,
) -> bool {
    shares_band(stored, query, bands, width) && similar_enough(stored, query, threshold)
}

/// The match that an entry gives: the share of the hashes at which its
/// signature agrees with the queried one.
pub open spec fn similarity_hit(entry: SignatureEntry, query: Seq<u32>) -> MatchView {
    MatchView {
        name: entry.0,
        confidence: share_hundredths(agreements(entry.1, query, query.len()), query.len()) as u32,
    }
}

/// The matches of the candidates that qualify, in the order of the
/// candidates.
pub open spec fn similarity_hits(
    candidates: Seq<SignatureEntry>,
    query: Seq<u32>,
    bands: nat,
    width: nat,
    threshold: u8,
) -> Seq<MatchView>
    decreases candidates.len(),
{
    if candidates.len() == 0 {
        Seq::empty()
    } else if qualifies(candidates.last().1, query, bands, width, threshold) {
        similarity_hits(candidates.drop_last(), query, bands, width, threshold).push(
            similarity_hit(candidates.last(), query),
        )
    } else {
        similarity_hits(candidates.drop_last(), query, bands, width, threshold)
    }
}

/// Whether `matches` answers a query for `query` on the catalog `entries`:
/// it holds one match for each entry that qualifies and no other, each with
/// the entry's similarity, and never ascends.
pub open spec fn is_answer(
    entries: Map<Seq<char>, Seq<u32>>,
    query: Seq<u32>,
    bands: nat,
    width: nat,
    threshold: u8,
    matches: Seq<MatchView>,
) -> bool {
    &&& is_descending(matches)
    &&& names_distinct(matches)
    &&& forall|i: int|
        0 <= i < matches.len() ==> {
            &&& entries.contains_key((#[trigger] matches[i]).name)
            &&& qualifies(entries[matches[i].name], query, bands, width, threshold)
            &&& matches[i] == similarity_hit((matches[i].name, entries[matches[i].name]), query)
        }
    &&& forall|name: Seq<char>|
        entries.contains_key(name) && qualifies(
            #[trigger] entries[name],
            query,
            bands,
            width,
            threshold,
        ) ==> exists|i: int| 0 <= i < matches.len() && matches[i].name == name
}

/// Whether `list` lists the catalog `entries`: each name once, with its
/// signature.
pub open spec fn is_listing(list: Seq<SignatureEntry>, entries: Map<Seq<char>, Seq<u32>>) -> bool {
    &&& forall|i: int|
        0 <= i < list.len() ==> entries.contains_key((#[trigger] list[i]).0) && entries[list[i].0]
            == list[i].1
    &&& forall|i: int, j: int| 0 <= i < j < list.len() ==> list[i].0 != list[j].0
    &&& forall|name: Seq<char>| #[trigger]
        entries.contains_key(name) ==> exists|i: int| 0 <= i < list.len() && list[i].0 == name
}

/// Whether the names of a list ascend.
pub open spec fn names_ascend(list: Seq<SignatureEntry>) -> bool {
    forall|i: int, j: int| 0 <= i < j < list.len() ==> name_less(list[i].0, list[j].0)
}

/// Whether `list` lists the catalog `entries` by ascending name.
pub open spec fn is_ordered_listing(
    list: Seq<SignatureEntry>,
    entries: Map<Seq<char>, Seq<u32>>,
) -> bool {
    is_listing(list, entries) && names_ascend(list)
}

/// The entries of a catalog by ascending name: the order in which a store
/// holds them.
pub open spec fn ordered_listing(entries: Map<Seq<char>, Seq<u32>>) -> Seq<SignatureEntry> {
    choose|list: Seq<SignatureEntry>| is_ordered_listing(list, entries)
}

/// Whether every signature of a catalog has `num_hashes` hashes.
pub open spec fn signatures_fit(entries: Map<Seq<char>, Seq<u32>>, num_hashes: nat) -> bool {
    forall|name: Seq<char>|
        entries.contains_key(name) ==> (#[trigger] entries[name]).len() == num_hashes
}

/// Whether an entry stands in a list.
pub open spec fn stands_in(entry: SignatureEntry, list: Seq<SignatureEntry>) -> bool {
    exists|m: int| 0 <= m < list.len() && list[m] == entry
}

/// Whether each entry of `one` stands in `other`.
pub open spec fn each_stands_in(one: Seq<SignatureEntry>, other: Seq<SignatureEntry>) -> bool {
    forall|k: int| 0 <= k < one.len() ==> stands_in(#[trigger] one[k], other)
}

/// A catalog has one listing by ascending name.
pub proof fn lemma_ordered_listing_is_unique(
    a: Seq<SignatureEntry>,
    b: Seq<SignatureEntry>,
    entries: Map<Seq<char>, Seq<u32>>,
)
    requires
        is_ordered_listing(a, entries),
        is_ordered_listing(b, entries),
    ensures
        a == b,
    decreases a.len(),
{
    if a.len() == 0 {
        if b.len() > 0 {
            assert(entries.contains_key(b[0].0));
        }
        assert(a =~= b);
    } else {
        assert(entries.contains_key(a[0].0));
        let j = choose|j: int| 0 <= j < b.len() && b[j].0 == a[0].0;
        assert(entries.contains_key(b[0].0));
        let i = choose|i: int| 0 <= i < a.len() && a[i].0 == b[0].0;
        if a[0].0 != b[0].0 {
            assert(name_less(a[0].0, a[i].0));
            assert(name_less(b[0].0, b[j].0));
            lemma_name_order_is_strict(a[0].0, b[0].0);
        }
        assert(a[0] == b[0]);
        let name = a[0].0;
        let rest = entries.remove(name);
        lemma_tail_lists_the_rest(a, entries);
        lemma_tail_lists_the_rest(b, entries);
        lemma_ordered_listing_is_unique(a.skip(1), b.skip(1), rest);
        assert(a =~= seq![a[0]] + a.skip(1));
        assert(b =~= seq![b[0]] + b.skip(1));
    }
}

/// Without its first entry, an ordered listing lists the catalog without
/// that entry.
pub proof fn lemma_tail_lists_the_rest(list: Seq<SignatureEntry>, entries: Map<Seq<char>, Seq<u32>>)
    requires
        is_ordered_listing(list, entries),
        list.len() > 0,
    ensures
        is_ordered_listing(list.skip(1), entries.remove(list[0].0)),
{
    let tail = list.skip(1);
    let rest = entries.remove(list[0].0);
    assert forall|i: int| 0 <= i < tail.len() implies rest.contains_key((#[trigger] tail[i]).0)
        && rest[tail[i].0] == tail[i].1 by {
        assert(tail[i] == list[i + 1]);
        assert(list[0].0 != list[i + 1].0);
    }
    assert forall|i: int, j: int| 0 <= i < j < tail.len() implies tail[i].0 != tail[j].0
        && name_less(tail[i].0, tail[j].0) by {
        assert(tail[i] == list[i + 1] && tail[j] == list[j + 1]);
    }
    assert forall|name: Seq<char>| #[trigger] rest.contains_key(name) implies exists|i: int|
        0 <= i < tail.len() && tail[i].0 == name by {
        assert(entries.contains_key(name));
        let k = choose|k: int| 0 <= k < list.len() && list[k].0 == name;
        assert(tail[k - 1] == list[k]);
    }
}

/// A listing by ascending name is the ordered listing of its catalog.
pub proof fn lemma_is_the_ordered_listing(
    list: Seq<SignatureEntry>,
    entries: Map<Seq<char>, Seq<u32>>,
)
    requires
        is_ordered_listing(list, entries),
    ensures
        ordered_listing(entries) == list,
{
    lemma_ordered_listing_is_unique(ordered_listing(entries), list, entries);
}

/// Putting an entry into an ascending list, behind the names before its own
/// and in front of the names behind it, leaves the list ascending.
pub proof fn lemma_insert_keeps_ascending(list: Seq<SignatureEntry>, at: int, entry: SignatureEntry)
    requires
        names_ascend(list),
        0 <= at <= list.len(),
        forall|m: int| 0 <= m < at ==> name_less((#[trigger] list[m]).0, entry.0),
        at < list.len() ==> name_less(entry.0, list[at].0),
    ensures
        names_ascend(list.insert(at, entry)),
{
    let out = list.insert(at, entry);
    assert forall|i: int, j: int| 0 <= i < j < out.len() implies name_less(out[i].0, out[j].0) by {
        if j < at {
            assert(out[i] == list[i] && out[j] == list[j]);
        } else if j == at {
            assert(out[i] == list[i]);
        } else {
            assert(out[j] == list[j - 1]);
            if j - 1 > at {
                assert(name_less(list[at].0, list[j - 1].0));
                lemma_name_order_is_transitive(entry.0, list[at].0, list[j - 1].0);
            }
            if i < at {
                assert(out[i] == list[i]);
                lemma_name_order_is_transitive(list[i].0, entry.0, list[j - 1].0);
            } else if i > at {
                assert(out[i] == list[i - 1]);
            }
        }
    }
}

/// Putting the next entry of `source` into a list that holds the entries
/// before it gives a list that holds the entries up to it.
pub proof fn lemma_insert_keeps_members(
    list: Seq<SignatureEntry>,
    at: int,
    source: Seq<SignatureEntry>,
    n: int,
)
    requires
        0 <= at <= list.len(),
        0 <= n < source.len(),
        each_stands_in(list, source.take(n)),
        each_stands_in(source.take(n), list),
    ensures
        each_stands_in(list.insert(at, source[n]), source.take(n + 1)),
        each_stands_in(source.take(n + 1), list.insert(at, source[n])),
{
    let out = list.insert(at, source[n]);
    let old_part = source.take(n);
    let new_part = source.take(n + 1);
    assert forall|k: int| 0 <= k < out.len() implies stands_in(#[trigger] out[k], new_part) by {
        if k == at {
            assert(new_part[n] == out[k]);
        } else {
            let from = if k < at {
                k
            } else {
                k - 1
            };
            assert(out[k] == list[from]);
            assert(stands_in(list[from], old_part));
            let m = choose|m: int| 0 <= m < old_part.len() && old_part[m] == list[from];
            assert(new_part[m] == out[k]);
        }
    }
    assert forall|k: int| 0 <= k < new_part.len() implies stands_in(
        #[trigger] new_part[k],
        out,
    ) by {
        if k == n {
            assert(out[at] == new_part[k]);
        } else {
            assert(new_part[k] == old_part[k]);
            assert(stands_in(old_part[k], list));
            let m = choose|m: int| 0 <= m < list.len() && list[m] == old_part[k];
            if m < at {
                assert(out[m] == list[m]);
            } else {
                assert(out[m + 1] == list[m]);
            }
        }
    }
}

/// A list that ascends and holds what a listing holds is the listing by
/// ascending name.
pub proof fn lemma_reordered_listing(
    list: Seq<SignatureEntry>,
    source: Seq<SignatureEntry>,
    entries: Map<Seq<char>, Seq<u32>>,
)
    requires
        is_listing(source, entries),
        names_ascend(list),
        each_stands_in(list, source),
        each_stands_in(source, list),
    ensures
        is_ordered_listing(list, entries),
{
    assert forall|i: int| 0 <= i < list.len() implies entries.contains_key(
        (#[trigger] list[i]).0,
    ) && entries[list[i].0] == list[i].1 by {
        assert(stands_in(list[i], source));
        let m = choose|m: int| 0 <= m < source.len() && source[m] == list[i];
        assert(entries.contains_key(source[m].0));
    }
    assert forall|i: int, j: int| 0 <= i < j < list.len() implies list[i].0 != list[j].0 by {
        lemma_name_order_is_strict(list[i].0, list[j].0);
    }
    assert forall|name: Seq<char>| #[trigger] entries.contains_key(name) implies exists|i: int|
        0 <= i < list.len() && list[i].0 == name by {
        let k = choose|k: int| 0 <= k < source.len() && source[k].0 == name;
        assert(stands_in(source[k], list));
        let m = choose|m: int| 0 <= m < list.len() && list[m] == source[k];
        assert(list[m].0 == name);
    }
}

/// The catalog after each of `loaded` that has `num_hashes` hashes has been
/// put in, in order. An entry of another length is passed over.
pub open spec fn merged_signatures(
    entries: Map<Seq<char>, Seq<u32>>,
    loaded: Seq<SignatureEntry>,
    num_hashes: nat,
) -> Map<Seq<char>, Seq<u32>>
    decreases loaded.len(),
{
    if loaded.len() == 0 {
        entries
    } else if loaded.last().1.len() == num_hashes {
        merged_signatures(entries, loaded.drop_last(), num_hashes).insert(
            loaded.last().0,
            loaded.last().1,
        )
    } else {
        merged_signatures(entries, loaded.drop_last(), num_hashes)
    }
}

/// Whether `m` is the match of a candidate that qualifies.
pub open spec fn hit_from(
    candidates: Seq<SignatureEntry>,
    query: Seq<u32>,
    bands: nat,
    width: nat,
    threshold: u8,
    m: MatchView,
) -> bool {
    exists|k: int|
        0 <= k < candidates.len() && qualifies(
            (#[trigger] candidates[k]).1,
            query,
            bands,
            width,
            threshold,
        ) && similarity_hit(candidates[k], query) == m
}

/// Every hit is the match of a candidate that qualifies, and every
/// candidate that qualifies has its hit.
pub proof fn lemma_similarity_hits(
    candidates: Seq<SignatureEntry>,
    query: Seq<u32>,
    bands: nat,
    width: nat,
    threshold: u8,
)
    ensures
        forall|j: int|
            0 <= j < similarity_hits(candidates, query, bands, width, threshold).len() ==> hit_from(
                candidates,
                query,
                bands,
                width,
                threshold,
                #[trigger] similarity_hits(candidates, query, bands, width, threshold)[j],
            ),
        forall|k: int|
            0 <= k < candidates.len() && qualifies(
                (#[trigger] candidates[k]).1,
                query,
                bands,
                width,
                threshold,
            ) ==> holds(
                similarity_hits(candidates, query, bands, width, threshold),
                similarity_hit(candidates[k], query),
            ),
    decreases candidates.len(),
{
    let out = similarity_hits(candidates, query, bands, width, threshold);
    if candidates.len() > 0 {
        let front = candidates.drop_last();
        let inner = similarity_hits(front, query, bands, width, threshold);
        lemma_similarity_hits(front, query, bands, width, threshold);
        assert forall|j: int| 0 <= j < out.len() implies hit_from(
            candidates,
            query,
            bands,
            width,
            threshold,
            #[trigger] out[j],
        ) by {
            if j < inner.len() {
                assert(out[j] == inner[j]);
                assert(hit_from(front, query, bands, width, threshold, inner[j]));
                let k = choose|k: int|
                    0 <= k < front.len() && qualifies(
                        (#[trigger] front[k]).1,
                        query,
                        bands,
                        width,
                        threshold,
                    ) && similarity_hit(front[k], query) == inner[j];
                assert(candidates[k] == front[k]);
            } else {
                let k = candidates.len() - 1;
                assert(candidates[k] == candidates.last());
                assert(qualifies(candidates[k].1, query, bands, width, threshold));
            }
        }
        assert forall|k: int|
            0 <= k < candidates.len() && qualifies(
                (#[trigger] candidates[k]).1,
                query,
                bands,
                width,
                threshold,
            ) implies holds(out, similarity_hit(candidates[k], query)) by {
            if k < front.len() {
                assert(front[k] == candidates[k]);
                let j = choose|j: int|
                    0 <= j < inner.len() && inner[j] == similarity_hit(front[k], query);
                assert(out[j] == inner[j]);
            } else {
                assert(out[out.len() - 1] == similarity_hit(candidates[k], query));
            }
        }
    }
}

/// The ranked hits of candidates with distinct names carry distinct names.
pub proof fn lemma_ranked_hits_distinct(
    candidates: Seq<SignatureEntry>,
    query: Seq<u32>,
    bands: nat,
    width: nat,
    threshold: u8,
)
    requires
        forall|i: int, j: int| 0 <= i < j < candidates.len() ==> candidates[i].0 != candidates[j].0,
    ensures
        names_distinct(rank(similarity_hits(candidates, query, bands, width, threshold))),
    decreases candidates.len(),
{
    if candidates.len() > 0 {
        let front = candidates.drop_last();
        let inner = similarity_hits(front, query, bands, width, threshold);
        assert forall|i: int, j: int| 0 <= i < j < front.len() implies front[i].0
            != front[j].0 by {
            assert(front[i] == candidates[i] && front[j] == candidates[j]);
        }
        lemma_ranked_hits_distinct(front, query, bands, width, threshold);
        if qualifies(candidates.last().1, query, bands, width, threshold) {
            let m = similarity_hit(candidates.last(), query);
            assert(inner.push(m).drop_last() == inner);
            lemma_similarity_hits(front, query, bands, width, threshold);
            assert forall|j: int| 0 <= j < rank(inner).len() implies (#[trigger] rank(
                inner,
            )[j]).name != m.name by {
                lemma_rank_members(inner, j);
                let i = choose|i: int| 0 <= i < inner.len() && inner[i] == rank(inner)[j];
                assert(hit_from(front, query, bands, width, threshold, inner[i]));
                let k = choose|k: int|
                    0 <= k < front.len() && qualifies(
                        (#[trigger] front[k]).1,
                        query,
                        bands,
                        width,
                        threshold,
                    ) && similarity_hit(front[k], query) == inner[i];
                assert(candidates[k] == front[k]);
                assert(candidates[k].0 != candidates[candidates.len() - 1].0);
            }
            lemma_insert_ranked_distinct(rank(inner), m);
        }
    }
}

/// Ranking the hits of the index's candidates answers the query: the
/// candidates are entries, each once, and hold every entry that shares a
/// band with the queried signature.
pub proof fn lemma_ranked_candidates_answer(
    entries: Map<Seq<char>, Seq<u32>>,
    candidates: Seq<SignatureEntry>,
    query: Seq<u32>,
    bands: nat,
    width: nat,
    threshold: u8,
)
    requires
        forall|i: int|
            0 <= i < candidates.len() ==> entries.contains_key((#[trigger] candidates[i]).0)
                && entries[candidates[i].0] == candidates[i].1,
        forall|i: int, j: int| 0 <= i < j < candidates.len() ==> candidates[i].0 != candidates[j].0,
        forall|name: Seq<char>|
            entries.contains_key(name) && shares_band(#[trigger] entries[name], query, bands, width)
                ==> exists|i: int| 0 <= i < candidates.len() && candidates[i].0 == name,
    ensures
        is_answer(
            entries,
            query,
            bands,
            width,
            threshold,
            rank(similarity_hits(candidates, query, bands, width, threshold)),
        ),
{
    let found = similarity_hits(candidates, query, bands, width, threshold);
    let ranked = rank(found);
    lemma_rank_is_sorted_permutation(found);
    lemma_ranked_hits_distinct(candidates, query, bands, width, threshold);
    lemma_similarity_hits(candidates, query, bands, width, threshold);
    assert forall|i: int| 0 <= i < ranked.len() implies {
        &&& entries.contains_key((#[trigger] ranked[i]).name)
        &&& qualifies(entries[ranked[i].name], query, bands, width, threshold)
        &&& ranked[i] == similarity_hit((ranked[i].name, entries[ranked[i].name]), query)
    } by {
        lemma_rank_members(found, i);
        let j = choose|j: int| 0 <= j < found.len() && found[j] == ranked[i];
        assert(hit_from(candidates, query, bands, width, threshold, found[j]));
        let k = choose|k: int|
            0 <= k < candidates.len() && qualifies(
                (#[trigger] candidates[k]).1,
                query,
                bands,
                width,
                threshold,
            ) && similarity_hit(candidates[k], query) == found[j];
        assert(entries.contains_key(candidates[k].0));
    }
    assert forall|name: Seq<char>|
        entries.contains_key(name) && qualifies(
            #[trigger] entries[name],
            query,
            bands,
            width,
            threshold,
        ) implies exists|i: int| 0 <= i < ranked.len() && ranked[i].name == name by {
        let k = choose|k: int| 0 <= k < candidates.len() && candidates[k].0 == name;
        assert(candidates[k].1 == entries[name]);
        assert(holds(found, similarity_hit(candidates[k], query)));
        let j = choose|j: int|
            0 <= j < found.len() && found[j] == similarity_hit(candidates[k], query);
        lemma_rank_keeps(found, j);
        let i = choose|i: int| 0 <= i < ranked.len() && ranked[i] == found[j];
        assert(ranked[i].name == name);
    }
}

/// Merging a store takes no name out of the catalog.
pub proof fn lemma_merged_signatures_keep_names(
    entries: Map<Seq<char>, Seq<u32>>,
    loaded: Seq<SignatureEntry>,
    num_hashes: nat,
)
    ensures
        entries.dom().subset_of(merged_signatures(entries, loaded, num_hashes).dom()),
    decreases loaded.len(),
{
    if loaded.len() > 0 {
        lemma_merged_signatures_keep_names(entries, loaded.drop_last(), num_hashes);
    }
}

/// What merging a list of distinct names, each with a fitting signature,
/// into an empty catalog gives: the entries of the list.
pub proof fn lemma_merged_into_empty(list: Seq<SignatureEntry>, num_hashes: nat)
    requires
        forall|i: int, j: int| 0 <= i < j < list.len() ==> list[i].0 != list[j].0,
        forall|i: int| 0 <= i < list.len() ==> (#[trigger] list[i]).1.len() == num_hashes,
    ensures
        forall|name: Seq<char>|
            #[trigger] merged_signatures(Map::empty(), list, num_hashes).contains_key(name)
                <==> exists|i: int| 0 <= i < list.len() && list[i].0 == name,
        forall|i: int|
            0 <= i < list.len() ==> merged_signatures(Map::empty(), list, num_hashes)[(
            #[trigger] list[i]).0] == list[i].1,
    decreases list.len(),
{
    let out = merged_signatures(Map::empty(), list, num_hashes);
    if list.len() > 0 {
        let front = list.drop_last();
        let inner = merged_signatures(Map::empty(), front, num_hashes);
        assert forall|i: int, j: int| 0 <= i < j < front.len() implies front[i].0
            != front[j].0 by {
            assert(front[i] == list[i] && front[j] == list[j]);
        }
        assert forall|i: int| 0 <= i < front.len() implies (#[trigger] front[i]).1.len()
            == num_hashes by {
            assert(front[i] == list[i]);
        }
        lemma_merged_into_empty(front, num_hashes);
        assert(list[list.len() - 1].1.len() == num_hashes);
        assert forall|name: Seq<char>| #[trigger] out.contains_key(name) <==> exists|i: int|
            0 <= i < list.len() && list[i].0 == name by {
            if out.contains_key(name) {
                if name != list.last().0 {
                    assert(inner.contains_key(name));
                    let i = choose|i: int| 0 <= i < front.len() && front[i].0 == name;
                    assert(list[i].0 == name);
                } else {
                    assert(list[list.len() - 1].0 == name);
                }
            }
            if exists|i: int| 0 <= i < list.len() && list[i].0 == name {
                let i = choose|i: int| 0 <= i < list.len() && list[i].0 == name;
                if i < front.len() {
                    assert(front[i].0 == name);
                    assert(inner.contains_key(name));
                }
            }
        }
        assert forall|i: int| 0 <= i < list.len() implies out[(#[trigger] list[i]).0]
            == list[i].1 by {
            if i < front.len() {
                assert(front[i] == list[i]);
                assert(list[i].0 != list[list.len() - 1].0);
            }
        }
    }
}

/// What a catalog saves is read back, into an empty catalog of the same
/// signature length, as that catalog.
pub proof fn lemma_signature_store_round_trip(
    entries: Map<Seq<char>, Seq<u32>>,
    num_hashes: nat,
    raw: Seq<u8>,
    decoded: Option<Seq<SignatureEntry>>,
)
    requires
        is_ordered_listing(ordered_listing(entries), entries),
        signatures_fit(entries, num_hashes),
        encoded_signature_entries(ordered_listing(entries)) == Some(raw),
        reads_back_signatures(raw, decoded),
    ensures
        decoded == Some(ordered_listing(entries)),
        merged_signatures(Map::empty(), ordered_listing(entries), num_hashes) == entries,
{
    let list = ordered_listing(entries);
    assert forall|i: int| 0 <= i < list.len() implies (#[trigger] list[i]).1.len()
        == num_hashes by {
        assert(entries.contains_key(list[i].0));
    }
    lemma_merged_into_empty(list, num_hashes);
    let out = merged_signatures(Map::empty(), list, num_hashes);
    assert forall|name: Seq<char>| out.contains_key(name) == entries.contains_key(name) by {
        if entries.contains_key(name) {
            let i = choose|i: int| 0 <= i < list.len() && list[i].0 == name;
            assert(out.contains_key(name));
        }
        if out.contains_key(name) {
            let i = choose|i: int| 0 <= i < list.len() && list[i].0 == name;
            assert(entries.contains_key(list[i].0));
        }
    }
    assert forall|name: Seq<char>| entries.contains_key(name) implies out[name]
        == entries[name] by {
        let i = choose|i: int| 0 <= i < list.len() && list[i].0 == name;
        assert(out[list[i].0] == list[i].1);
    }
    assert(out =~= entries);
}

/// Putting a name in twice leaves what putting in the second signature
/// alone leaves: one entry under the name.
pub proof fn lemma_insert_twice(
    entries: Map<Seq<char>, Seq<u32>>,
    name: Seq<char>,
    first: Seq<u32>,
    second: Seq<u32>,
)
    ensures
        entries.insert(name, first).insert(name, second) == entries.insert(name, second),
        entries.insert(name, second).dom() == entries.dom().insert(name),
{
    assert(entries.insert(name, first).insert(name, second) =~= entries.insert(name, second));
}

/// No answer names an entry that was removed, and an empty catalog is
/// answered by an empty list.
pub proof fn lemma_answer_names_entries(
    entries: Map<Seq<char>, Seq<u32>>,
    query: Seq<u32>,
    bands: nat,
    width: nat,
    threshold: u8,
    matches: Seq<MatchView>,
    name: Seq<char>,
)
    requires
        is_answer(entries.remove(name), query, bands, width, threshold, matches),
    ensures
        forall|i: int| 0 <= i < matches.len() ==> (#[trigger] matches[i]).name != name,
        entries.remove(name).dom() == Set::<Seq<char>>::empty() ==> matches.len() == 0,
{
    if matches.len() > 0 {
        assert(entries.remove(name).contains_key(matches[0].name));
    }
}

/// A signature is seen as the sequence of its hashes.
pub broadcast proof fn lemma_signature_view(signature: Vec<u32>)
    ensures
        #[trigger] signature.deep_view() == signature@,
{
    assert(signature.deep_view() =~= signature@);
}

/// Counts the positions at which two signatures of one length agree.
pub fn count_agreements(a: &Vec<u32>, b: &Vec<u32>) -> (count: usize)
    requires
        a.len() == b.len(),
    ensures
        count == agreements(a@, b@, a@.len()),
        count <= a.len(),
{
    let mut count: usize = 0;
    let mut i: usize = 0;
    while i < a.len()
        invariant
            i <= a.len(),
            a.len() == b.len(),
            count == agreements(a@, b@, i as nat),
            count <= i,
        decreases a.len() - i,
    {
        if a[i] == b[i] {
            count += 1;
        }
        i += 1;
    }
    count
}

/// Decides whether two signatures agree on the band that starts at `start`.
pub fn band_agrees(a: &Vec<u32>, b: &Vec<u32>, start: usize, width: usize) -> (agrees: bool)
    requires
        start + width <= a.len(),
        start + width <= b.len(),
    ensures
        agrees == (a@.subrange(start as int, start + width) == b@.subrange(
            start as int,
            start + width,
        )),
{
    let ghost band_a = a@.subrange(start as int, start + width);
    let ghost band_b = b@.subrange(start as int, start + width);
    let mut i: usize = 0;
    while i < width
        invariant
            i <= width,
            start + width <= a.len(),
            start + width <= b.len(),
            band_a == a@.subrange(start as int, start + width),
            band_b == b@.subrange(start as int, start + width),
            forall|k: int| 0 <= k < i ==> band_a[k] == band_b[k],
        decreases width - i,
    {
        if a[start + i] != b[start + i] {
            assert(band_a[i as int] != band_b[i as int]);
            return false;
        }
        i += 1;
    }
    assert(band_a =~= band_b);
    true
}

/// Decides whether two signatures are of `num_bands * band_width` hashes and
/// agree on a whole band.
pub fn signatures_share_band(
    a: &Vec<u32>,
    b: &Vec<u32>,
    num_bands: usize,
    band_width: usize,
) -> (shared: bool)
    ensures
        shared == shares_band(a@, b@, num_bands as nat, band_width as nat),
{
    let product = num_bands.checked_mul(band_width);
    let len_a = a.len();
    if product.is_none() {
        assert(len_a != num_bands * band_width);
        return false;
    }
    let num_hashes = product.unwrap();
    if a.len() != num_hashes || b.len() != num_hashes {
        return false;
    }
    let mut k: usize = 0;
    let mut start: usize = 0;
    while k < num_bands
        invariant
            k <= num_bands,
            start == k * band_width,
            num_hashes == num_bands * band_width,
            a.len() == num_hashes,
            b.len() == num_hashes,
            forall|j: int|
                0 <= j < k ==> #[trigger] band_of(a@, band_width as nat, j) != band_of(
                    b@,
                    band_width as nat,
                    j,
                ),
        decreases num_bands - k,
    {
        assert((k + 1) * band_width == k * band_width + band_width) by (nonlinear_arith);
        assert((k + 1) * band_width <= num_bands * band_width) by (nonlinear_arith)
            requires
                k + 1 <= num_bands,
        ;
        if band_agrees(a, b, start, band_width) {
            assert(band_of(a@, band_width as nat, k as int) == band_of(
                b@,
                band_width as nat,
                k as int,
            ));
            return true;
        }
        start += band_width;
        k += 1;
    }
    false
}

/// Decides whether enough hashes agree.
pub fn is_similar_enough(agreeing: usize, num_hashes: usize, threshold: u8) -> (enough: bool)
    ensures
        enough == (agreeing * 100 >= threshold * num_hashes),
{
    assert((threshold as u128) * (num_hashes as u128) <= 255 * 0xffff_ffff_ffff_ffff)
        by (nonlinear_arith)
        requires
            threshold <= 255,
            num_hashes <= 0xffff_ffff_ffff_ffff,
    ;
    (agreeing as u128) * 100 >= (threshold as u128) * (num_hashes as u128)
}

/// Ranks the candidates that an index handed out: those that qualify, by
/// descending similarity.
pub fn rank_candidates(
    candidates: &Vec<(String, Vec<u32>)>,
    query: &Vec<u32>,
    num_bands: usize,
    band_width: usize,
    threshold: u8,
) -> (matches: Vec<LicenseMatch>)
    ensures
        matches.deep_view() == rank(
            similarity_hits(
                candidates.deep_view(),
                query@,
                num_bands as nat,
                band_width as nat,
                threshold,
            ),
        ),
{
    let mut matches: Vec<LicenseMatch> = Vec::new();
    let ghost all = candidates.deep_view();
    let mut i: usize = 0;
    while i < candidates.len()
        invariant
            i <= candidates.len(),
            all == candidates.deep_view(),
            matches.deep_view() == rank(
                similarity_hits(
                    all.take(i as int),
                    query@,
                    num_bands as nat,
                    band_width as nat,
                    threshold,
                ),
            ),
        decreases candidates.len() - i,
    {
        let stored = &candidates[i].1;
        let ghost before = similarity_hits(
            all.take(i as int),
            query@,
            num_bands as nat,
            band_width as nat,
            threshold,
        );
        proof {
            assert(all.take(i + 1).drop_last() == all.take(i as int));
            assert(all.take(i + 1).last() == (candidates[i as int].0@, candidates[i as int].1@));
        }
        if signatures_share_band(stored, query, num_bands, band_width) {
            let agreeing = count_agreements(stored, query);
            if is_similar_enough(agreeing, query.len(), threshold) {
                let confidence = share_of(agreeing, query.len());
                let ghost m = similarity_hit(all[i as int], query@);
                insert_match(
                    &mut matches,
                    LicenseMatch { name: candidates[i].0.clone(), confidence },
                );
                assert(before.push(m).drop_last() == before);
            }
        }
        i += 1;
    }
    assert(all.take(candidates.len() as int) == all);
    matches
}

/// A catalog of MinHash signatures in a banded index, with the settings of
/// its queries.
pub struct GaoyaDetection<N: Normalization> {
    index: SignatureIndex,
    num_bands: usize,
    band_width: usize,
    threshold: u8,
    shingle_text_size: usize,
    normalization_fn: N,
}

impl<N: Normalization> GaoyaDetection<N> {
    #[verifier::type_invariant]
    spec fn well_formed(self) -> bool {
        &&& self.band_width > 0
        &&& self.shingle_text_size > 0
        &&& self.num_bands * self.band_width <= usize::MAX
        &&& index_bands(self.index) == self.num_bands
        &&& index_band_width(self.index) == self.band_width
    }

    /// The catalog as contracts see it: the signature under each name.
    pub closed spec fn registry(&self) -> Map<Seq<char>, Seq<u32>> {
        index_entries(self.index)
    }

    /// The number of bands of the index.
    pub closed spec fn bands(&self) -> nat {
        self.num_bands as nat
    }

    /// The number of hashes in a band.
    pub closed spec fn width(&self) -> nat {
        self.band_width as nat
    }

    /// The lowest similarity, in percent, that is reported.
    pub closed spec fn min_similarity(&self) -> u8 {
        self.threshold
    }

    /// The length of a shingle, in characters.
    pub closed spec fn shingle_size(&self) -> nat {
        self.shingle_text_size as nat
    }

    /// The strategy that canonicalizes a text before it is sketched.
    pub closed spec fn normalizer(&self) -> N {
        self.normalization_fn
    }

    /// Whether two catalogs differ in nothing but their entries.
    pub open spec fn same_settings(&self, other: &Self) -> bool {
        &&& self.bands() == other.bands()
        &&& self.width() == other.width()
        &&& self.min_similarity() == other.min_similarity()
        &&& self.shingle_size() == other.shingle_size()
        &&& self.normalizer() == other.normalizer()
    }

    /// Whether `outcome` answers a query with the signature `hash`.
    pub open spec fn answers_hash(&self, hash: Seq<u32>, outcome: QueryView) -> bool {
        outcome matches Ok(matches) && is_answer(
            self.registry(),
            hash,
            self.bands(),
            self.width(),
            self.min_similarity(),
            matches,
        )
    }

    /// Whether `outcome` answers a query with `text`: it answers the
    /// signature of a canonical form of the text.
    pub open spec fn answers_text(&self, text: Seq<char>, outcome: QueryView) -> bool {
        exists|normalized: Seq<char>| #[trigger]
            self.normalizer().normalizes(text, normalized) && self.answers_hash(
                self.signature_of(normalized),
                outcome,
            )
    }

    /// Whether `hash` is the signature of a canonical form of `text`.
    pub open spec fn sketches(&self, text: Seq<char>, hash: Result<Seq<u32>, DetectionError>) -> bool {
        exists|normalized: Seq<char>| #[trigger]
            self.normalizer().normalizes(text, normalized) && hash == Ok::<
                Seq<u32>,
                DetectionError,
            >(self.signature_of(normalized))
    }

    /// Whether `raw` is what saving this catalog gives: the encoding of its
    /// entries by ascending name, each with a signature of the catalog's
    /// length.
    pub open spec fn saves(&self, raw: Option<Seq<u8>>) -> bool {
        &&& is_ordered_listing(ordered_listing(self.registry()), self.registry())
        &&& signatures_fit(self.registry(), self.bands() * self.width())
        &&& raw == encoded_signature_entries(ordered_listing(self.registry()))
    }

    /// Whether `after` is this catalog with what `raw` holds merged in. What
    /// is read from `raw` is what was written, where `raw` was written from
    /// a list of entries.
    pub open spec fn merges(&self, raw: Seq<u8>, after: &Self) -> bool {
        &&& reads_back_signatures(raw, decoded_signature_entries(raw))
        &&& after.registry() == match decoded_signature_entries(raw) {
            Some(loaded) => merged_signatures(
                self.registry(),
                loaded,
                self.bands() * self.width(),
            ),
            None => self.registry(),
        }
        &&& after.same_settings(self)
    }

    /// The signature of a normalized text.
    pub open spec fn signature_of(&self, normalized: Seq<char>) -> Seq<u32> {
        minhash_signature(self.bands() * self.width(), self.shingle_size(), normalized)
    }

    /// An empty catalog whose index has `num_bands` bands of `band_width`
    /// hashes, whose queries report a similarity of at least `threshold`
    /// percent, and whose shingles are `shingle_text_size` characters long.
    /// `None` where a band or a shingle would be empty, or where the
    /// signatures would be longer than the machine can count.
    pub fn new(
        num_bands: usize,
        band_width: usize,
        threshold: u8,
        shingle_text_size: usize,
        normalization_fn: N,
    ) -> (made: Option<Self>)
        ensures
            made is Some == (band_width > 0 && shingle_text_size > 0 && num_bands * band_width
                <= usize::MAX),
            made matches Some(catalog) ==> {
                &&& catalog.registry() == Map::<Seq<char>, Seq<u32>>::empty()
                &&& catalog.bands() == num_bands
                &&& catalog.width() == band_width
                &&& catalog.min_similarity() == threshold
                &&& catalog.shingle_size() == shingle_text_size
                &&& catalog.normalizer() == normalization_fn
            },
    {
        if band_width == 0 || shingle_text_size == 0 {
            return None;
        }
        if num_bands.checked_mul(band_width).is_none() {
            return None;
        }
        let index = index_new(num_bands, band_width);
        assert(index_entries(index) =~= Map::<Seq<char>, Seq<u32>>::empty());
        Some(
            GaoyaDetection {
                index,
                num_bands,
                band_width,
                threshold,
                shingle_text_size,
                normalization_fn,
            },
        )
    }

    /// An empty catalog with the default settings.
    pub fn with_defaults(normalization_fn: N) -> (catalog: Self)
        ensures
            catalog.registry() == Map::<Seq<char>, Seq<u32>>::empty(),
            catalog.bands() == DEFAULT_NUM_BANDS,
            catalog.width() == DEFAULT_BAND_WIDTH,
            catalog.min_similarity() == DEFAULT_THRESHOLD,
            catalog.shingle_size() == DEFAULT_SHINGLE_SIZE,
            catalog.normalizer() == normalization_fn,
    {
        let index = index_new(DEFAULT_NUM_BANDS, DEFAULT_BAND_WIDTH);
        assert(index_entries(index) =~= Map::<Seq<char>, Seq<u32>>::empty());
        GaoyaDetection {
            index,
            num_bands: DEFAULT_NUM_BANDS,
            band_width: DEFAULT_BAND_WIDTH,
            threshold: DEFAULT_THRESHOLD,
            shingle_text_size: DEFAULT_SHINGLE_SIZE,
            normalization_fn,
        }
    }

    /// The number of hashes in a signature of this catalog.
    pub fn num_hashes(&self) -> (n: usize)
        ensures
            n == self.bands() * self.width(),
    {
        proof {
            use_type_invariant(self);
        }
        self.num_bands * self.band_width
    }

    /// Sketches a text that has been normalized.
    pub fn signature(&self, normalized: &str) -> (signature: Vec<u32>)
        ensures
            signature@ == self.signature_of(normalized@),
            signature.len() == self.bands() * self.width(),
    {
        proof {
            use_type_invariant(self);
        }
        text_signature(self.num_hashes(), self.shingle_text_size, normalized)
    }

    /// Puts `signature` under `name`, in place of what stood there, where it
    /// has the catalog's number of hashes. Any other is passed over.
    pub fn upsert(&mut self, name: String, signature: Vec<u32>) -> (stored: bool)
        ensures
            stored == (signature.len() == old(self).bands() * old(self).width()),
            stored ==> final(self).registry() == old(self).registry().insert(name@, signature@),
            !stored ==> final(self).registry() == old(self).registry(),
            final(self).same_settings(old(self)),
    {
        proof {
            use_type_invariant(&*self);
        }
        if signature.len() != self.num_hashes() {
            return false;
        }
        index_remove(&mut self.index, &name);
        index_insert(&mut self.index, name, signature);
        assert(self.registry() =~= old(self).registry().insert(name@, signature@));
        true
    }

    /// Merges a store into the catalog: each of its entries that has the
    /// catalog's number of hashes is put in, in order.
    pub fn load_disk_data(&mut self, data: DiskData<Vec<u32>>)
        ensures
            final(self).registry() == merged_signatures(
                old(self).registry(),
                data.deep_view(),
                old(self).bands() * old(self).width(),
            ),
            final(self).same_settings(old(self)),
    {
        broadcast use lemma_signature_view;

        let ghost loaded = data.deep_view();
        let mut i: usize = 0;
        while i < data.licenses.len()
            invariant
                i <= data.licenses.len(),
                loaded == data.deep_view(),
                self.registry() == merged_signatures(
                    old(self).registry(),
                    loaded.take(i as int),
                    old(self).bands() * old(self).width(),
                ),
                self.same_settings(old(self)),
            decreases data.licenses.len() - i,
        {
            assert(loaded.take(i + 1).drop_last() == loaded.take(i as int));
            assert(loaded.take(i + 1).last() == (
                data.licenses[i as int].name@,
                data.licenses[i as int].hash@,
            ));
            let signature = data.licenses[i].hash.clone();
            assert(signature@ == data.licenses[i as int].hash@);
            self.upsert(data.licenses[i].name.clone(), signature);
            i += 1;
        }
        assert(loaded.take(data.licenses.len() as int) == loaded);
    }

    /// The store that holds this catalog: its entries by ascending name.
    pub fn to_disk_data(&self) -> (data: DiskData<Vec<u32>>)
        ensures
            data.deep_view() == ordered_listing(self.registry()),
            is_ordered_listing(data.deep_view(), self.registry()),
            signatures_fit(self.registry(), self.bands() * self.width()),
    {
        let list = self.get_license_list();
        let ghost source = list.deep_view();
        let mut licenses: Vec<LicenseEntry<Vec<u32>>> = Vec::new();
        let mut i: usize = 0;
        assert(source.take(0) =~= Seq::<SignatureEntry>::empty());
        while i < list.len()
            invariant
                i <= list.len(),
                source == list.deep_view(),
                is_listing(source, self.registry()),
                names_ascend(licenses.deep_view()),
                each_stands_in(licenses.deep_view(), source.take(i as int)),
                each_stands_in(source.take(i as int), licenses.deep_view()),
            decreases list.len() - i,
        {
            let ghost before = licenses.deep_view();
            proof {
                assert forall|m: int| 0 <= m < before.len() implies (#[trigger] before[m]).0
                    != source[i as int].0 by {
                    assert(stands_in(before[m], source.take(i as int)));
                    let k = choose|k: int|
                        0 <= k < source.take(i as int).len() && source.take(i as int)[k]
                            == before[m];
                    assert(source[k].0 != source[i as int].0);
                }
            }
            let at = insert_by_name(&mut licenses, &list[i]);
            proof {
                lemma_insert_keeps_members(before, at as int, source, i as int);
            }
            i += 1;
        }
        proof {
            assert(source.take(list.len() as int) == source);
            lemma_reordered_listing(licenses.deep_view(), source, self.registry());
            lemma_is_the_ordered_listing(licenses.deep_view(), self.registry());
        }
        DiskData { licenses }
    }
}

/// Puts a copy of `entry` into a list that ascends by name, where its name
/// belongs, and says where that is.
pub fn insert_by_name(licenses: &mut Vec<LicenseEntry<Vec<u32>>>, entry: &(String, Vec<u32>)) -> (at:
    usize)
    requires
        names_ascend(old(licenses).deep_view()),
        forall|m: int|
            0 <= m < old(licenses).len() ==> (#[trigger] old(licenses).deep_view()[m]).0
                != entry.0@,
    ensures
        at <= old(licenses).len(),
        final(licenses).deep_view() == old(licenses).deep_view().insert(
            at as int,
            entry.deep_view(),
        ),
        names_ascend(final(licenses).deep_view()),
{
    broadcast use lemma_signature_view;

    let ghost held = licenses@;
    let ghost before = licenses.deep_view();
    let ghost next = entry.deep_view();
    let mut at: usize = 0;
    while at < licenses.len() && name_before(licenses[at].name.as_str(), entry.0.as_str())
        invariant
            at <= licenses.len(),
            before == licenses.deep_view(),
            next == entry.deep_view(),
            forall|m: int| 0 <= m < at ==> name_less((#[trigger] before[m]).0, next.0),
        decreases licenses.len() - at,
    {
        assert(before[at as int].0 == licenses[at as int].name@);
        at += 1;
    }
    proof {
        if at < licenses.len() {
            assert(before[at as int].0 == licenses[at as int].name@);
            lemma_name_order_is_total(before[at as int].0, next.0);
        }
        lemma_insert_keeps_ascending(before, at as int, next);
    }
    let hash = entry.1.clone();
    assert(hash@ == entry.1@);
    let copy = LicenseEntry { name: entry.0.clone(), hash };
    assert(copy.deep_view() == next);
    licenses.insert(at, copy);
    assert forall|k: int| 0 <= k < licenses.len() implies licenses.deep_view()[k]
        == before.insert(at as int, next)[k] by {
        if k < at {
            assert(licenses@[k] == held[k]);
            assert(licenses.deep_view()[k] == before[k]);
        } else if k == at {
            assert(licenses@[k] == copy);
        } else {
            assert(licenses@[k] == held[k - 1]);
            assert(licenses.deep_view()[k] == before[k - 1]);
        }
    }
    assert(licenses.deep_view() =~= before.insert(at as int, next));
    at
}

impl<N: Normalization> LicenseListActions<Vec<u32>> for GaoyaDetection<N> {
    type Normalizer = N;

    open spec fn names(&self) -> Set<Seq<char>> {
        self.registry().dom()
    }

    open spec fn stores(&self, raw: Option<Seq<u8>>) -> bool {
        self.saves(raw)
    }

    open spec fn loads(&self, raw: Seq<u8>, after: &Self) -> bool {
        self.merges(raw, after)
    }

    open spec fn is_fresh_for(&self, other: &Self) -> bool {
        self.registry() == Map::<Seq<char>, Seq<u32>>::empty() && self.same_settings(other)
    }

    proof fn lemma_store_round_trip(&self, fresh: &Self, loaded: &Self, raw: Seq<u8>) {
        lemma_signature_store_round_trip(
            self.registry(),
            self.bands() * self.width(),
            raw,
            decoded_signature_entries(raw),
        );
        assert(loaded.registry() == self.registry());
    }

    open spec fn text_query(&self, text: Seq<char>, outcome: QueryView) -> bool {
        self.answers_text(text, outcome)
    }

    open spec fn hash_query(&self, hash: Seq<u32>, outcome: QueryView) -> bool {
        self.answers_hash(hash, outcome)
    }

    open spec fn fingerprint_of(&self, text: Seq<char>, hash: Result<Seq<u32>, DetectionError>) -> bool {
        self.sketches(text, hash)
    }

    proof fn lemma_text_query_is_ranked(&self, text: Seq<char>, outcome: QueryView) {
        let normalized = choose|normalized: Seq<char>| #[trigger]
            self.normalizer().normalizes(text, normalized) && self.answers_hash(
                self.signature_of(normalized),
                outcome,
            );
        self.lemma_hash_query_is_ranked(self.signature_of(normalized), outcome);
    }

    proof fn lemma_hash_query_is_ranked(&self, hash: Seq<u32>, outcome: QueryView) {
        if let Ok(matches) = outcome {
            assert forall|i: int| 0 <= i < matches.len() implies (#[trigger] matches[i]).confidence
                <= 10000 by {
                let stored = self.registry()[matches[i].name];
                lemma_agreements_bounded(stored, hash, hash.len());
                lemma_share_bounded(agreements(stored, hash, hash.len()), hash.len());
            }
        }
    }

    fn match_by_plain_text(&self, plain_text: &str) -> (outcome: QueryResult)
        ensures
            outcome is Ok,
            self.answers_text(plain_text@, query_view(outcome)),
    {
        broadcast use lemma_signature_view;

        let normalized = self.normalization_fn.normalize(plain_text);
        assert(self.normalizer().normalizes(plain_text@, normalized@));
        let signature = self.signature(normalized.as_str());
        self.match_by_hash(signature)
    }

    fn match_by_hash(&self, hash: Vec<u32>) -> (outcome: QueryResult)
        ensures
            outcome is Ok,
            self.answers_hash(hash@, query_view(outcome)),
    {
        broadcast use lemma_signature_view;

        proof {
            use_type_invariant(self);
        }
        let mut candidates: Vec<(String, Vec<u32>)> = Vec::new();
        if hash.len() == self.num_hashes() {
            let names = index_candidates(&self.index, &hash);
            let mut i: usize = 0;
            while i < names.len()
                invariant
                    i <= names.len(),
                    candidates.len() == i,
                    forall|k: int|
                        0 <= k < names.len() ==> index_entries(self.index).contains_key(
                            #[trigger] names[k]@,
                        ),
                    forall|k: int|
                        0 <= k < i ==> (#[trigger] candidates.deep_view()[k]) == (
                            names[k]@,
                            index_entries(self.index)[names[k]@],
                        ),
                    forall|j: int, k: int| 0 <= j < k < names.len() ==> names[j]@ != names[k]@,
                    forall|name: Seq<char>|
                        index_entries(self.index).contains_key(name) && shares_band(
                            #[trigger] index_entries(self.index)[name],
                            hash@,
                            index_bands(self.index),
                            index_band_width(self.index),
                        ) ==> exists|k: int| 0 <= k < names.len() && names[k]@ == name,
                decreases names.len() - i,
            {
                let ghost before = candidates.deep_view();
                let ghost held = candidates@;
                match index_signature(&self.index, &names[i]) {
                    Some(signature) => {
                        let name = names[i].clone();
                        let ghost pair = (name, signature);
                        candidates.push((name, signature));
                        assert(candidates@ == held.push(pair));
                        assert(pair.deep_view() == (names[i as int]@, signature@));
                        assert forall|k: int| 0 <= k < i + 1 implies (
                        #[trigger] candidates.deep_view()[k]) == (
                            names[k]@,
                            index_entries(self.index)[names[k]@],
                        ) by {
                            if k < i {
                                assert(candidates@[k] == held[k]);
                                assert(candidates.deep_view()[k] == before[k]);
                            } else {
                                assert(candidates.deep_view()[k] == pair.deep_view());
                            }
                        }
                    },
                    None => {
                        assert(index_entries(self.index).contains_key(names[i as int]@));
                    },
                }
                i += 1;
            }
            proof {
                let listed = candidates.deep_view();
                assert forall|name: Seq<char>|
                    self.registry().contains_key(name) && shares_band(
                        #[trigger] self.registry()[name],
                        hash@,
                        self.bands(),
                        self.width(),
                    ) implies exists|k: int| 0 <= k < listed.len() && listed[k].0 == name by {
                    let k = choose|k: int| 0 <= k < names.len() && names[k]@ == name;
                    assert(listed[k].0 == name);
                }
            }
        }
        let matches = rank_candidates(
            &candidates,
            &hash,
            self.num_bands,
            self.band_width,
            self.threshold,
        );
        proof {
            let entries = self.registry();
            let listed = candidates.deep_view();
            if hash.len() != self.bands() * self.width() {
                assert(listed.len() == 0);
            }
            lemma_ranked_candidates_answer(
                entries,
                listed,
                hash@,
                self.bands(),
                self.width(),
                self.min_similarity(),
            );
        }
        Ok(matches)
    }

    fn get_license_list(&self) -> (list: Vec<(String, Vec<u32>)>)
        ensures
            is_listing(list.deep_view(), self.registry()),
            signatures_fit(self.registry(), self.bands() * self.width()),
    {
        broadcast use lemma_signature_view;

        let list = index_list(&self.index);
        proof {
            use_type_invariant(self);
            assert forall|name: Seq<char>| self.registry().contains_key(name) implies (
            #[trigger] self.registry()[name]).len() == self.bands() * self.width() by {
                let i = choose|i: int| 0 <= i < list.len() && list[i].0@ == name;
                assert(list[i].1.len() == self.bands() * self.width());
            }
            let listed = list.deep_view();
            assert forall|i: int| 0 <= i < listed.len() implies self.registry().contains_key(
                (#[trigger] listed[i]).0,
            ) && self.registry()[listed[i].0] == listed[i].1 by {
                assert(listed[i] == (list[i].0@, list[i].1@));
            }
            assert forall|name: Seq<char>| #[trigger]
                self.registry().contains_key(name) implies exists|i: int|
                0 <= i < listed.len() && listed[i].0 == name by {
                let i = choose|i: int| 0 <= i < list.len() && list[i].0@ == name;
                assert(listed[i] == (list[i].0@, list[i].1@));
            }
            assert(is_listing(listed, self.registry()));
            assert(names_of(listed) =~= self.names()) by {
                assert forall|name: Seq<char>| names_of(listed).contains(name)
                    == self.names().contains(name) by {
                    if names_of(listed).contains(name) {
                        let i = choose|i: int| 0 <= i < listed.len() && listed[i].0 == name;
                        assert(self.registry().contains_key(listed[i].0));
                    }
                }
            }
        }
        list
    }

    fn add_plain(&mut self, license_name: &str, license_text: &str) -> (outcome: Result<
        (),
        DetectionError,
    >)
        ensures
            outcome is Ok,
            exists|normalized: Seq<char>| #[trigger]
                old(self).normalizer().normalizes(license_text@, normalized)
                    && final(self).registry() == old(self).registry().insert(
                    license_name@,
                    old(self).signature_of(normalized),
                ),
            final(self).same_settings(old(self)),
    {
        broadcast use lemma_signature_view;

        let normalized = self.normalization_fn.normalize(license_text);
        assert(self.normalizer().normalizes(license_text@, normalized@));
        let signature = self.signature(normalized.as_str());
        self.upsert(license_name.to_owned(), signature);
        Ok(())
    }

    fn hash_from_inline_string(&self, license_text: &str) -> (hash: Result<
        Vec<u32>,
        DetectionError,
    >)
        ensures
            hash matches Ok(signature) && self.sketches(license_text@, Ok(signature@)),
    {
        broadcast use lemma_signature_view;

        let normalized = self.normalization_fn.normalize(license_text);
        assert(self.normalizer().normalizes(license_text@, normalized@));
        Ok(self.signature(normalized.as_str()))
    }

    fn remove(&mut self, license_name: &str)
        ensures
            final(self).registry() == old(self).registry().remove(license_name@),
            final(self).same_settings(old(self)),
    {
        proof {
            use_type_invariant(&*self);
        }
        index_remove(&mut self.index, &license_name.to_owned());
    }

    fn load_from_memory(&mut self, raw: &Vec<u8>)
        ensures
            old(self).merges(raw@, final(self)),
    {
        proof {
            if let Some(loaded) = decoded_signature_entries(raw@) {
                lemma_merged_signatures_keep_names(
                    self.registry(),
                    loaded,
                    self.bands() * self.width(),
                );
            }
        }
        match decode_signature_store(raw.as_slice()) {
            Some(data) => self.load_disk_data(data),
            None => {},
        }
    }

    fn save_to_memory(&self) -> (raw: Option<Vec<u8>>)
        ensures
            self.saves(bytes_view(raw)),
    {
        let data = self.to_disk_data();
        encode_signature_store(&data)
    }

    fn set_normalization_fn(&mut self, func: N)
        ensures
            final(self).normalizer() == func,
            final(self).registry() == old(self).registry(),
            final(self).bands() == old(self).bands(),
            final(self).width() == old(self).width(),
            final(self).min_similarity() == old(self).min_similarity(),
            final(self).shingle_size() == old(self).shingle_size(),
    {
        proof {
            use_type_invariant(&*self);
        }
        self.normalization_fn = func;
    }
}

} // verus!
