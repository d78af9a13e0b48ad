//! The backend that fingerprints a text as a context-triggered piecewise
//! hash and scans the whole catalog for every query. The hashing and the
//! scoring of two fingerprints are those of the `fuzzyhash` crate.

use vstd::prelude::*;
use vstd::string::StringSliceAdditionalSpecFns;
use vstd::utf8::encode_utf8;
use crate::detecting::{
    all_in_range, all_named_in, names_of, DetectionError, DiskData, LicenseEntry,
    LicenseListActions, LicenseMatch, MatchView, QueryResult, QueryView, query_view,
};
use crate::ranking::{
    insert_match, insert_ranked, is_descending, lemma_insert_ranked_distinct,
    lemma_rank_is_sorted_permutation, lemma_rank_members, names_distinct, rank,
};
use crate::normalization::Normalization;
use crate::persistence::{
    bytes_view, decode_text_store, decoded_text_entries, encode_text_store, encoded_text_entries,
    reads_back_texts,
};

verus! {

/// The longest text, in bytes, that is fingerprinted: the hasher counts in
/// 32 bits.
pub const MAX_TEXT_BYTES: usize = 0x8000_0000;

/// A name and a fingerprint, as contracts see an entry.
pub type TextEntry = (Seq<char>, Seq<char>);

/// What `fuzzyhash::FuzzyHash::new(text)` prints as its digest.
pub uninterp spec fn ssdeep_digest(text: Seq<char>) -> Seq<char>;

/// What `fuzzyhash::FuzzyHash::compare` makes of two digests: a score, or
/// `None` where it reports an error.
pub uninterp spec fn ssdeep_score(first: Seq<char>, second: Seq<char>) -> Option<u32>;

/// Whether a colon stands at `i`.
pub open spec fn colon_at(bytes: Seq<u8>, i: int) -> bool {
    0 <= i < bytes.len() && bytes[i] == 58
}

/// Whether a digest has the frame that a comparison relies on: a block size
/// of at most eight bytes, a colon, and a second colon behind it.
pub open spec fn comparable(bytes: Seq<u8>) -> bool {
    exists|i: int, j: int| #[trigger]
        colon_at(bytes, i) && #[trigger] colon_at(bytes, j) && i <= 8 && i < j
}

/// Calls `fuzzyhash::FuzzyHash::new` and prints the digest. The input is
/// bounded because the hasher's counters overflow beyond it. The contract
/// only names the result.
#[verifier::external_body]
pub(crate) fn fuzzy_digest(text: &str) -> (digest: String)
    requires
        text.spec_bytes().len() <= MAX_TEXT_BYTES,
    ensures
        digest@ == ssdeep_digest(text@),
{
    fuzzyhash::FuzzyHash::new(text).to_string()
}

/// Calls `fuzzyhash::FuzzyHash::compare`. Both digests must be framed: on
/// others the crate reads past the parts it has split, or multiplies a block
/// size out of range. The contract only names the result.
#[verifier::external_body]
pub(crate) fn fuzzy_compare(first: &str, second: &str) -> (score: Option<u32>)
    requires
        comparable(first.spec_bytes()),
        comparable(second.spec_bytes()),
    ensures
        score == ssdeep_score(first@, second@),
{
    fuzzyhash::FuzzyHash::compare(first, second).ok()
}

/// Decides whether a digest is framed for comparison.
pub fn is_comparable(digest: &str) -> (framed: bool)
    ensures
        framed == comparable(digest.spec_bytes()),
{
    let bytes = digest.as_bytes();
    let mut first: usize = 0;
    while first < bytes.len() && first <= 8 && bytes[first] != 58
        invariant
            first <= bytes@.len(),
            first <= 9,
            forall|k: int| 0 <= k < first ==> !colon_at(bytes@, k),
        decreases bytes@.len() - first,
    {
        first += 1;
    }
    if first >= bytes.len() || first > 8 {
        assert(!comparable(bytes@)) by {
            if comparable(bytes@) {
                let (i, j) = choose|i: int, j: int| #[trigger]
                    colon_at(bytes@, i) && #[trigger] colon_at(bytes@, j) && i <= 8 && i < j;
                assert(!colon_at(bytes@, i));
            }
        }
        return false;
    }
    let mut second: usize = first + 1;
    while second < bytes.len() && bytes[second] != 58
        invariant
            first < second <= bytes@.len(),
            colon_at(bytes@, first as int),
            first <= 8,
            forall|k: int| 0 <= k < first ==> !colon_at(bytes@, k),
            forall|k: int| first < k < second ==> !colon_at(bytes@, k),
        decreases bytes@.len() - second,
    {
        second += 1;
    }
    if second < bytes.len() {
        assert(colon_at(bytes@, first as int) && colon_at(bytes@, second as int));
        true
    } else {
        assert(!comparable(bytes@)) by {
            if comparable(bytes@) {
                let (i, j) = choose|i: int, j: int| #[trigger]
                    colon_at(bytes@, i) && #[trigger] colon_at(bytes@, j) && i <= 8 && i < j;
                assert(!colon_at(bytes@, j));
            }
        }
        false
    }
}

/// The score that a comparison stands for, in percent: what it says, held
/// to 100, and none for a comparison that failed.
pub open spec fn score_from(compared: Option<u32>) -> Option<nat> {
    match compared {
        Some(s) => Some(
            if s <= 100 {
                s as nat
            } else {
                100
            },
        ),
        None => None,
    }
}

/// The score of a stored digest against a queried one, in percent: what the
/// comparison says where both are framed. Where one is not, or where the
/// comparison fails, there is no score.
pub open spec fn score_against(query: Seq<char>, stored: Seq<char>) -> Option<nat> {
    if comparable(encode_utf8(query)) && comparable(encode_utf8(stored)) {
        score_from(ssdeep_score(query, stored))
    } else {
        None
    }
}

/// A score in hundredths of a percent.
pub open spec fn confidence_at(score: nat) -> u32 {
    (score * 100) as u32
}

/// The match that an entry gives. An entry without a score gives none: it
/// never qualifies.
pub open spec fn hit(query: Seq<char>, entry: TextEntry) -> MatchView {
    MatchView {
        name: entry.0,
        confidence: match score_against(query, entry.1) {
            Some(score) => confidence_at(score),
            None => 0,
        },
    }
}

/// Whether an entry is reported: its comparison gave a score, and the score
/// is at least the minimum.
pub open spec fn qualifies(query: Seq<char>, entry: TextEntry, min_confidence: u8) -> bool {
    score_against(query, entry.1) matches Some(score) && score >= min_confidence
}

/// Whether the scan ends with this entry: an exact match that is reported,
/// where exact matches are to end it.
pub open spec fn ends_scan(
    query: Seq<char>,
    entry: TextEntry,
    min_confidence: u8,
    exit_on_exact_match: bool,
) -> bool {
    exit_on_exact_match && qualifies(query, entry, min_confidence) && score_against(
        query,
        entry.1,
    ) == Some(100nat)
}

/// The entries that the scan reaches: all of them, or those up to the first
/// that ends it.
pub open spec fn scanned(
    entries: Seq<TextEntry>,
    query: Seq<char>,
    min_confidence: u8,
    exit_on_exact_match: bool,
) -> Seq<TextEntry>
    decreases entries.len(),
{
    if entries.len() == 0 {
        Seq::empty()
    } else if ends_scan(query, entries[0], min_confidence, exit_on_exact_match) {
        seq![entries[0]]
    } else {
        seq![entries[0]] + scanned(
            entries.skip(1),
            query,
            min_confidence,
            exit_on_exact_match,
        )
    }
}

/// The matches of the entries that qualify, in the order of the entries.
pub open spec fn hits(entries: Seq<TextEntry>, query: Seq<char>, min_confidence: u8) -> Seq<
    MatchView,
>
    decreases entries.len(),
{
    if entries.len() == 0 {
        Seq::empty()
    } else if qualifies(query, entries.last(), min_confidence) {
        hits(entries.drop_last(), query, min_confidence).push(hit(query, entries.last()))
    } else {
        hits(entries.drop_last(), query, min_confidence)
    }
}

/// The answer to a queried digest: the qualifying matches of the scanned
/// entries, ranked.
pub open spec fn ranked_hits(
    entries: Seq<TextEntry>,
    query: Seq<char>,
    min_confidence: u8,
    exit_on_exact_match: bool,
) -> Seq<MatchView> {
    rank(hits(scanned(entries, query, min_confidence, exit_on_exact_match), query, min_confidence))
}

/// The entries without those that stand under `name`.
pub open spec fn without_name(entries: Seq<TextEntry>, name: Seq<char>) -> Seq<TextEntry>
    decreases entries.len(),
{
    if entries.len() == 0 {
        Seq::empty()
    } else if entries.last().0 == name {
        without_name(entries.drop_last(), name)
    } else {
        without_name(entries.drop_last(), name).push(entries.last())
    }
}

/// The entries with `name` bound to `hash` alone: what stood under the name
/// is gone, and the new entry comes last.
pub open spec fn upserted(entries: Seq<TextEntry>, name: Seq<char>, hash: Seq<char>) -> Seq<
    TextEntry,
> {
    without_name(entries, name).push((name, hash))
}

/// The entries after each of `loaded` has been put in, in order.
pub open spec fn merged(entries: Seq<TextEntry>, loaded: Seq<TextEntry>) -> Seq<TextEntry>
    decreases loaded.len(),
{
    if loaded.len() == 0 {
        entries
    } else {
        upserted(merged(entries, loaded.drop_last()), loaded.last().0, loaded.last().1)
    }
}

/// Whether no two entries share a name.
pub open spec fn names_unique(entries: Seq<TextEntry>) -> bool {
    forall|i: int, j: int| 0 <= i < j < entries.len() ==> entries[i].0 != entries[j].0
}

/// What is left after a removal: the other entries, in their order, and
/// nothing under the removed name.
pub proof fn lemma_without_name(entries: Seq<TextEntry>, name: Seq<char>)
    ensures
        names_of(without_name(entries, name)) == names_of(entries).remove(name),
        without_name(entries, name).len() <= entries.len(),
        forall|k: int|
            0 <= k < without_name(entries, name).len() ==> (#[trigger] without_name(
                entries,
                name,
            )[k]).0 != name,
        names_unique(entries) ==> names_unique(without_name(entries, name)),
        forall|k: int|
            0 <= k < without_name(entries, name).len() ==> exists|j: int|
                0 <= j < entries.len() && entries[j] == #[trigger] without_name(entries, name)[k],
    decreases entries.len(),
{
    let out = without_name(entries, name);
    if entries.len() > 0 {
        let front = entries.drop_last();
        let inner = without_name(front, name);
        lemma_without_name(front, name);
        assert forall|k: int| 0 <= k < out.len() implies exists|j: int|
            0 <= j < entries.len() && entries[j] == #[trigger] out[k] by {
            if k < inner.len() {
                let j = choose|j: int| 0 <= j < front.len() && front[j] == inner[k];
                assert(entries[j] == out[k]);
            } else {
                assert(entries[entries.len() - 1] == out[k]);
            }
        }
        assert forall|n: Seq<char>| names_of(out).contains(n) == names_of(entries).remove(
            name,
        ).contains(n) by {
            if names_of(out).contains(n) {
                let k = choose|k: int| 0 <= k < out.len() && out[k].0 == n;
                let j = choose|j: int| 0 <= j < entries.len() && entries[j] == out[k];
                assert(entries[j].0 == n);
            }
            if names_of(entries).remove(name).contains(n) {
                let j = choose|j: int| 0 <= j < entries.len() && entries[j].0 == n;
                if j < front.len() {
                    assert(front[j].0 == n);
                    assert(names_of(front).remove(name).contains(n));
                    assert(names_of(inner).contains(n));
                    let k = choose|k: int| 0 <= k < inner.len() && inner[k].0 == n;
                    assert(out[k].0 == n);
                } else {
                    assert(out[out.len() - 1].0 == n);
                }
            }
        }
        assert(names_of(out) =~= names_of(entries).remove(name));
        if names_unique(entries) {
            assert(names_unique(front)) by {
                assert forall|i: int, j: int| 0 <= i < j < front.len() implies front[i].0
                    != front[j].0 by {
                    assert(front[i] == entries[i] && front[j] == entries[j]);
                }
            }
            assert forall|i: int, j: int| 0 <= i < j < out.len() implies out[i].0
                != out[j].0 by {
                if j < inner.len() {
                    assert(out[i] == inner[i] && out[j] == inner[j]);
                } else {
                    let k = choose|k: int| 0 <= k < front.len() && front[k] == inner[i];
                    assert(entries[k].0 != entries[entries.len() - 1].0);
                }
            }
        }
    } else {
        assert(names_of(out) =~= names_of(entries).remove(name));
    }
}

/// Removing a name that is not there changes nothing.
pub proof fn lemma_without_absent_name(entries: Seq<TextEntry>, name: Seq<char>)
    requires
        !names_of(entries).contains(name),
    ensures
        without_name(entries, name) == entries,
    decreases entries.len(),
{
    if entries.len() > 0 {
        let front = entries.drop_last();
        assert(entries[entries.len() - 1].0 != name);
        assert forall|i: int| 0 <= i < front.len() implies front[i].0 != name by {
            assert(entries[i].0 != name);
        }
        lemma_without_absent_name(front, name);
        assert(front.push(entries.last()) == entries);
    }
}

/// After an upsert the name stands once, with the new fingerprint, and
/// every other name stands as before.
pub proof fn lemma_upserted(entries: Seq<TextEntry>, name: Seq<char>, hash: Seq<char>)
    ensures
        names_of(upserted(entries, name, hash)) == names_of(entries).insert(name),
        names_unique(entries) ==> names_unique(upserted(entries, name, hash)),
        upserted(entries, name, hash).last() == (name, hash),
        forall|k: int|
            0 <= k < upserted(entries, name, hash).len() - 1 ==> (#[trigger] upserted(
                entries,
                name,
                hash,
            )[k]).0 != name,
{
    let kept = without_name(entries, name);
    let out = upserted(entries, name, hash);
    lemma_without_name(entries, name);
    assert forall|n: Seq<char>| names_of(out).contains(n) == names_of(entries).insert(
        name,
    ).contains(n) by {
        if names_of(out).contains(n) {
            let k = choose|k: int| 0 <= k < out.len() && out[k].0 == n;
            if k < kept.len() {
                assert(kept[k].0 == n);
                assert(names_of(kept).contains(n));
            }
        }
        if names_of(entries).insert(name).contains(n) {
            if n == name {
                assert(out[out.len() - 1].0 == n);
            } else {
                assert(names_of(kept).contains(n));
                let k = choose|k: int| 0 <= k < kept.len() && kept[k].0 == n;
                assert(out[k].0 == n);
            }
        }
    }
    assert(names_of(out) =~= names_of(entries).insert(name));
    assert forall|k: int| 0 <= k < out.len() - 1 implies (#[trigger] out[k]).0 != name by {
        assert(out[k] == kept[k]);
    }
    if names_unique(entries) {
        assert forall|i: int, j: int| 0 <= i < j < out.len() implies out[i].0 != out[j].0 by {
            if j < kept.len() {
                assert(out[i] == kept[i] && out[j] == kept[j]);
            } else {
                assert(out[i] == kept[i]);
            }
        }
    }
}

/// Merging a store takes no name out of the catalog.
pub proof fn lemma_merged_keeps_names(entries: Seq<TextEntry>, loaded: Seq<TextEntry>)
    ensures
        names_of(entries).subset_of(names_of(merged(entries, loaded))),
        names_unique(entries) ==> names_unique(merged(entries, loaded)),
    decreases loaded.len(),
{
    if loaded.len() > 0 {
        lemma_merged_keeps_names(entries, loaded.drop_last());
        lemma_upserted(merged(entries, loaded.drop_last()), loaded.last().0, loaded.last().1);
    }
}

/// Merging a store of unique names into an empty catalog gives the store.
pub proof fn lemma_merged_into_empty(loaded: Seq<TextEntry>)
    requires
        names_unique(loaded),
    ensures
        merged(Seq::empty(), loaded) == loaded,
    decreases loaded.len(),
{
    if loaded.len() > 0 {
        let front = loaded.drop_last();
        assert(names_unique(front)) by {
            assert forall|i: int, j: int| 0 <= i < j < front.len() implies front[i].0
                != front[j].0 by {
                assert(front[i] == loaded[i] && front[j] == loaded[j]);
            }
        }
        lemma_merged_into_empty(front);
        assert(!names_of(front).contains(loaded.last().0)) by {
            if names_of(front).contains(loaded.last().0) {
                let i = choose|i: int| 0 <= i < front.len() && front[i].0 == loaded.last().0;
                assert(loaded[i].0 != loaded[loaded.len() - 1].0);
            }
        }
        lemma_without_absent_name(front, loaded.last().0);
        assert(front.push(loaded.last()) == loaded);
    }
}

/// What a catalog of unique names saves is read back, into an empty
/// catalog, as that catalog, and is saved from there as the same bytes.
pub proof fn lemma_text_store_round_trip(
    entries: Seq<TextEntry>,
    raw: Seq<u8>,
    decoded: Option<Seq<TextEntry>>,
)
    requires
        names_unique(entries),
        encoded_text_entries(entries) == Some(raw),
        reads_back_texts(raw, decoded),
    ensures
        decoded == Some(entries),
        merged(Seq::empty(), entries) == entries,
{
    lemma_merged_into_empty(entries);
}

/// Putting the same name in twice leaves what putting in the second alone
/// leaves: one entry under the name.
pub proof fn lemma_upsert_twice(
    entries: Seq<TextEntry>,
    name: Seq<char>,
    first: Seq<char>,
    second: Seq<char>,
)
    ensures
        upserted(upserted(entries, name, first), name, second) == upserted(entries, name, second),
{
    let once = upserted(entries, name, first);
    lemma_without_name(entries, name);
    assert(once.drop_last() == without_name(entries, name));
    lemma_without_name_is_idempotent(entries, name);
}

/// Removing a name a second time changes nothing.
pub proof fn lemma_without_name_is_idempotent(entries: Seq<TextEntry>, name: Seq<char>)
    ensures
        without_name(without_name(entries, name), name) == without_name(entries, name),
    decreases entries.len(),
{
    if entries.len() > 0 {
        lemma_without_name_is_idempotent(entries.drop_last(), name);
        if entries.last().0 != name {
            let inner = without_name(entries.drop_last(), name);
            assert(inner.push(entries.last()).drop_last() == inner);
        }
    }
}

/// Every match of a scan names an entry of the catalog.
pub proof fn lemma_hits_are_named(
    entries: Seq<TextEntry>,
    query: Seq<char>,
    min_confidence: u8,
    exit_on_exact_match: bool,
)
    ensures
        all_named_in(
            ranked_hits(entries, query, min_confidence, exit_on_exact_match),
            names_of(entries),
        ),
        is_descending(ranked_hits(entries, query, min_confidence, exit_on_exact_match)),
        all_in_range(ranked_hits(entries, query, min_confidence, exit_on_exact_match)),
{
    let reached = scanned(entries, query, min_confidence, exit_on_exact_match);
    let found = hits(reached, query, min_confidence);
    let ranked = rank(found);
    lemma_rank_is_sorted_permutation(found);
    lemma_scanned_is_prefix(entries, query, min_confidence, exit_on_exact_match);
    assert forall|i: int| 0 <= i < ranked.len() implies names_of(entries).contains(
        #[trigger] ranked[i].name,
    ) by {
        lemma_rank_members(found, i);
        let j = choose|j: int| 0 <= j < found.len() && found[j] == ranked[i];
        lemma_hits_members(reached, query, min_confidence, j);
        let k = choose|k: int| 0 <= k < reached.len() && reached[k].0 == found[j].name;
        assert(entries[k].0 == ranked[i].name);
    }
    assert forall|i: int| 0 <= i < ranked.len() implies (#[trigger] ranked[i]).confidence
        <= 10000 by {
        lemma_rank_members(found, i);
        let j = choose|j: int| 0 <= j < found.len() && found[j] == ranked[i];
        lemma_hits_members(reached, query, min_confidence, j);
    }
}

/// The scan reaches a prefix of the catalog.
pub proof fn lemma_scanned_is_prefix(
    entries: Seq<TextEntry>,
    query: Seq<char>,
    min_confidence: u8,
    exit_on_exact_match: bool,
)
    ensures
        scanned(entries, query, min_confidence, exit_on_exact_match).len() <= entries.len(),
        forall|k: int|
            0 <= k < scanned(entries, query, min_confidence, exit_on_exact_match).len()
                ==> #[trigger] scanned(entries, query, min_confidence, exit_on_exact_match)[k]
                == entries[k],
        !exit_on_exact_match ==> scanned(entries, query, min_confidence, exit_on_exact_match)
            == entries,
    decreases entries.len(),
{
    if entries.len() > 0 && !ends_scan(query, entries[0], min_confidence, exit_on_exact_match) {
        lemma_scanned_is_prefix(entries.skip(1), query, min_confidence, exit_on_exact_match);
        if !exit_on_exact_match {
            assert(seq![entries[0]] + entries.skip(1) == entries);
        }
    }
}

/// Every hit is the match of an entry that was looked at.
pub proof fn lemma_hits_members(
    entries: Seq<TextEntry>,
    query: Seq<char>,
    min_confidence: u8,
    j: int,
)
    requires
        0 <= j < hits(entries, query, min_confidence).len(),
    ensures
        exists|k: int|
            0 <= k < entries.len() && #[trigger] entries[k].0 == hits(
                entries,
                query,
                min_confidence,
            )[j].name && qualifies(query, entries[k], min_confidence),
        hits(entries, query, min_confidence)[j].confidence <= 10000,
    decreases entries.len(),
{
    if entries.len() > 0 {
        let front = entries.drop_last();
        let inner = hits(front, query, min_confidence);
        if j < inner.len() {
            lemma_hits_members(front, query, min_confidence, j);
            let k = choose|k: int|
                0 <= k < front.len() && #[trigger] front[k].0 == inner[j].name && qualifies(
                    query,
                    front[k],
                    min_confidence,
                );
            assert(entries[k] == front[k]);
        } else {
            assert(entries[entries.len() - 1].0 == hits(entries, query, min_confidence)[j].name);
        }
    }
}

/// Whether `m` is the match of `entry`: it carries the entry's name and the
/// score that the comparison gave, and the score reaches the minimum.
pub open spec fn is_hit_of(
    m: MatchView,
    query: Seq<char>,
    entry: TextEntry,
    min_confidence: u8,
) -> bool {
    &&& m.name == entry.0
    &&& score_against(query, entry.1) matches Some(score)
    &&& min_confidence <= score <= 100
    &&& m.confidence == score * 100
}

/// Every hit is the match of an entry that was looked at, and there are no
/// more hits than entries.
pub proof fn lemma_hits_are_scored(entries: Seq<TextEntry>, query: Seq<char>, min_confidence: u8)
    ensures
        hits(entries, query, min_confidence).len() <= entries.len(),
        forall|j: int|
            0 <= j < hits(entries, query, min_confidence).len() ==> exists|k: int|
                0 <= k < entries.len() && is_hit_of(
                    #[trigger] hits(entries, query, min_confidence)[j],
                    query,
                    #[trigger] entries[k],
                    min_confidence,
                ),
    decreases entries.len(),
{
    let out = hits(entries, query, min_confidence);
    if entries.len() > 0 {
        let front = entries.drop_last();
        let inner = hits(front, query, min_confidence);
        lemma_hits_are_scored(front, query, min_confidence);
        assert forall|j: int| 0 <= j < out.len() implies exists|k: int|
            0 <= k < entries.len() && is_hit_of(
                #[trigger] out[j],
                query,
                #[trigger] entries[k],
                min_confidence,
            ) by {
            if j < inner.len() {
                let k = choose|k: int|
                    0 <= k < front.len() && is_hit_of(
                        inner[j],
                        query,
                        #[trigger] front[k],
                        min_confidence,
                    );
                assert(entries[k] == front[k]);
                assert(is_hit_of(out[j], query, entries[k], min_confidence));
            } else {
                let k = entries.len() - 1;
                assert(is_hit_of(out[j], query, entries[k], min_confidence));
            }
        }
    }
}

/// The ranked hits of entries with unique names carry distinct names.
pub proof fn lemma_ranked_hits_are_distinct(
    entries: Seq<TextEntry>,
    query: Seq<char>,
    min_confidence: u8,
)
    requires
        names_unique(entries),
    ensures
        names_distinct(rank(hits(entries, query, min_confidence))),
    decreases entries.len(),
{
    if entries.len() > 0 {
        let front = entries.drop_last();
        let inner = hits(front, query, min_confidence);
        assert forall|i: int, j: int| 0 <= i < j < front.len() implies front[i].0
            != front[j].0 by {
            assert(front[i] == entries[i] && front[j] == entries[j]);
        }
        lemma_ranked_hits_are_distinct(front, query, min_confidence);
        if qualifies(query, entries.last(), min_confidence) {
            let m = hit(query, entries.last());
            assert(inner.push(m).drop_last() == inner);
            lemma_hits_are_scored(front, query, min_confidence);
            assert forall|j: int| 0 <= j < rank(inner).len() implies (#[trigger] rank(
                inner,
            )[j]).name != m.name by {
                lemma_rank_members(inner, j);
                let i = choose|i: int| 0 <= i < inner.len() && inner[i] == rank(inner)[j];
                let k = choose|k: int|
                    0 <= k < front.len() && is_hit_of(
                        inner[i],
                        query,
                        #[trigger] front[k],
                        min_confidence,
                    );
                assert(entries[k] == front[k]);
                assert(entries[k].0 != entries[entries.len() - 1].0);
            }
            lemma_insert_ranked_distinct(rank(inner), m);
        }
    }
}

/// No two matches of an answer carry the same name: each belongs to an
/// entry of its own.
pub proof fn lemma_answer_names_are_distinct(
    entries: Seq<TextEntry>,
    query: Seq<char>,
    min_confidence: u8,
    exit_on_exact_match: bool,
)
    requires
        names_unique(entries),
    ensures
        names_distinct(ranked_hits(entries, query, min_confidence, exit_on_exact_match)),
{
    let reached = scanned(entries, query, min_confidence, exit_on_exact_match);
    lemma_scanned_is_prefix(entries, query, min_confidence, exit_on_exact_match);
    assert forall|i: int, j: int| 0 <= i < j < reached.len() implies reached[i].0
        != reached[j].0 by {
        assert(reached[i] == entries[i] && reached[j] == entries[j]);
    }
    lemma_ranked_hits_are_distinct(reached, query, min_confidence);
}

/// Every match of an answer is the match of an entry of the catalog, at the
/// score that the comparison gave it, and the score reaches the minimum: an
/// entry whose comparison failed is not reported. There are no more matches
/// than entries.
pub proof fn lemma_answer_is_scored(
    entries: Seq<TextEntry>,
    query: Seq<char>,
    min_confidence: u8,
    exit_on_exact_match: bool,
)
    ensures
        ranked_hits(entries, query, min_confidence, exit_on_exact_match).len() <= entries.len(),
        forall|i: int|
            0 <= i < ranked_hits(entries, query, min_confidence, exit_on_exact_match).len()
                ==> exists|k: int|
                0 <= k < entries.len() && is_hit_of(
                    #[trigger] ranked_hits(entries, query, min_confidence, exit_on_exact_match)[i],
                    query,
                    #[trigger] entries[k],
                    min_confidence,
                ),
{
    let reached = scanned(entries, query, min_confidence, exit_on_exact_match);
    let found = hits(reached, query, min_confidence);
    let ranked = rank(found);
    lemma_rank_is_sorted_permutation(found);
    lemma_scanned_is_prefix(entries, query, min_confidence, exit_on_exact_match);
    lemma_hits_are_scored(reached, query, min_confidence);
    assert forall|i: int| 0 <= i < ranked.len() implies exists|k: int|
        0 <= k < entries.len() && is_hit_of(
            #[trigger] ranked[i],
            query,
            #[trigger] entries[k],
            min_confidence,
        ) by {
        lemma_rank_members(found, i);
        let j = choose|j: int| 0 <= j < found.len() && found[j] == ranked[i];
        let k = choose|k: int|
            0 <= k < reached.len() && is_hit_of(found[j], query, #[trigger] reached[k], min_confidence);
        assert(entries[k] == reached[k]);
        assert(is_hit_of(ranked[i], query, entries[k], min_confidence));
    }
}

/// A score as contracts see it.
pub open spec fn score_view(score: Option<u32>) -> Option<nat> {
    match score {
        Some(s) => Some(s as nat),
        None => None,
    }
}

/// The score that a comparison stands for: a percentage, or none where the
/// comparison failed.
pub fn score_of(compared: Option<u32>) -> (score: Option<u32>)
    ensures
        score_view(score) == score_from(compared),
        score matches Some(s) ==> s <= 100,
{
    match compared {
        Some(s) => Some(
            if s <= 100 {
                s
            } else {
                100
            },
        ),
        None => None,
    }
}

/// Takes a compared entry into the ranked list where it has a score and the
/// score reaches the minimum.
pub fn consider(
    ranked: &mut Vec<LicenseMatch>,
    name: &String,
    score: Option<u32>,
    min_confidence: u8,
) -> (taken: bool)
    requires
        score matches Some(s) ==> s <= 100,
    ensures
        taken == (score matches Some(s) && s >= min_confidence),
        taken ==> final(ranked).deep_view() == insert_ranked(
            old(ranked).deep_view(),
            MatchView { name: name@, confidence: confidence_at(score.unwrap() as nat) },
        ),
        !taken ==> final(ranked).deep_view() == old(ranked).deep_view(),
{
    match score {
        Some(s) => {
            if s >= min_confidence as u32 {
                insert_match(ranked, LicenseMatch { name: name.clone(), confidence: s * 100 });
                true
            } else {
                false
            }
        },
        None => false,
    }
}

/// The digest of a normalized text, or the reason why it has none.
pub open spec fn digest_of(normalized: Seq<char>) -> Result<Seq<char>, DetectionError> {
    if encode_utf8(normalized).len() > MAX_TEXT_BYTES {
        Err(DetectionError::InputTooLarge)
    } else {
        Ok(ssdeep_digest(normalized))
    }
}

/// Hashes a text that has been normalized.
pub fn digest_text(normalized: &str) -> (digest: Result<String, DetectionError>)
    ensures
        (match digest {
            Ok(d) => Ok(d@),
            Err(e) => Err(e),
        }) == digest_of(normalized@),
{
    if normalized.as_bytes().len() > MAX_TEXT_BYTES {
        Err(DetectionError::InputTooLarge)
    } else {
        Ok(fuzzy_digest(normalized))
    }
}

/// A catalog of piecewise hashes with the settings of its scan. It holds
/// each name once.
pub struct FuzzyDetection<N: Normalization> {
    licenses: Vec<LicenseEntry<String>>,
    min_confidence: u8,
    exit_on_exact_match: bool,
    normalization_fn: N,
}

impl<N: Normalization> FuzzyDetection<N> {
    #[verifier::type_invariant]
    spec fn holds_each_name_once(self) -> bool {
        names_unique(self.licenses.deep_view())
    }

    /// The catalog as contracts see it: the entries, in the order in which
    /// they came.
    pub closed spec fn registry(&self) -> Seq<TextEntry> {
        self.licenses.deep_view()
    }

    /// The lowest score, in percent, that is reported.
    pub closed spec fn minimum(&self) -> u8 {
        self.min_confidence
    }

    /// Whether the scan ends at the first entry that scores 100.
    pub closed spec fn exits_on_exact_match(&self) -> bool {
        self.exit_on_exact_match
    }

    /// The strategy that canonicalizes a text before it is hashed.
    pub closed spec fn normalizer(&self) -> N {
        self.normalization_fn
    }

    /// Whether two catalogs differ in nothing but their entries.
    pub open spec fn same_settings(&self, other: &Self) -> bool {
        &&& self.minimum() == other.minimum()
        &&& self.exits_on_exact_match() == other.exits_on_exact_match()
        &&& self.normalizer() == other.normalizer()
    }

    /// The answer to a queried digest.
    pub open spec fn answer(&self, query: Seq<char>) -> Seq<MatchView> {
        ranked_hits(self.registry(), query, self.minimum(), self.exits_on_exact_match())
    }

    /// The answer to a normalized text.
    pub open spec fn answer_to_text(&self, normalized: Seq<char>) -> QueryView {
        match digest_of(normalized) {
            Ok(digest) => Ok(self.answer(digest)),
            Err(e) => Err(e),
        }
    }

    /// Whether `outcome` answers a query with `text`: the answer to a
    /// canonical form of the text.
    pub open spec fn answers_text(&self, text: Seq<char>, outcome: QueryView) -> bool {
        exists|normalized: Seq<char>| #[trigger]
            self.normalizer().normalizes(text, normalized) && outcome == self.answer_to_text(
                normalized,
            )
    }

    /// Whether `hash` is the digest of a canonical form of `text`, or the
    /// reason why that form has none.
    pub open spec fn digests(&self, text: Seq<char>, hash: Result<Seq<char>, DetectionError>) -> bool {
        exists|normalized: Seq<char>| #[trigger]
            self.normalizer().normalizes(text, normalized) && hash == digest_of(normalized)
    }

    /// Whether `raw` is what saving this catalog gives: the encoding of its
    /// entries, in order, each name once.
    pub open spec fn saves(&self, raw: Option<Seq<u8>>) -> bool {
        self.wf() && raw == encoded_text_entries(self.registry())
    }

    /// Whether `after` is this catalog with what `raw` holds merged in. What
    /// is read from `raw` is what was written, where `raw` was written from
    /// a list of entries.
    pub open spec fn merges(&self, raw: Seq<u8>, after: &Self) -> bool {
        &&& reads_back_texts(raw, decoded_text_entries(raw))
        &&& after.registry() == match decoded_text_entries(raw) {
            Some(loaded) => merged(self.registry(), loaded),
            None => self.registry(),
        }
        &&& after.same_settings(self)
        &&& self.wf() ==> after.wf()
    }

    /// Whether the catalog holds each name once, as every catalog that was
    /// made by `new` does.
    pub open spec fn wf(&self) -> bool {
        names_unique(self.registry())
    }

    /// An empty catalog that reports scores of at least `min_confidence`
    /// percent.
    pub fn new(min_confidence: u8, exit_on_exact_match: bool, normalization_fn: N) -> (catalog:
        Self)
        ensures
            catalog.registry().len() == 0,
            catalog.minimum() == min_confidence,
            catalog.exits_on_exact_match() == exit_on_exact_match,
            catalog.normalizer() == normalization_fn,
            catalog.wf(),
    {
        FuzzyDetection {
            licenses: Vec::new(),
            min_confidence,
            exit_on_exact_match,
            normalization_fn,
        }
    }

    /// The lowest score, in percent, that is reported.
    pub fn min_confidence(&self) -> (minimum: u8)
        ensures
            minimum == self.minimum(),
    {
        self.min_confidence
    }

    /// Whether the scan ends at the first entry that scores 100.
    pub fn exit_on_exact_match(&self) -> (exits: bool)
        ensures
            exits == self.exits_on_exact_match(),
    {
        self.exit_on_exact_match
    }

    /// Changes the lowest score that is reported.
    pub fn set_min_confidence(&mut self, min_confidence: u8)
        ensures
            final(self).minimum() == min_confidence,
            final(self).registry() == old(self).registry(),
            final(self).exits_on_exact_match() == old(self).exits_on_exact_match(),
            final(self).normalizer() == old(self).normalizer(),
    {
        proof {
            use_type_invariant(&*self);
        }
        self.min_confidence = min_confidence;
    }

    /// Changes whether the scan ends at the first entry that scores 100.
    pub fn set_exit_on_exact_match(&mut self, exit_on_exact_match: bool)
        ensures
            final(self).exits_on_exact_match() == exit_on_exact_match,
            final(self).registry() == old(self).registry(),
            final(self).minimum() == old(self).minimum(),
            final(self).normalizer() == old(self).normalizer(),
    {
        proof {
            use_type_invariant(&*self);
        }
        self.exit_on_exact_match = exit_on_exact_match;
    }

    /// Copies of the entries that do not stand under `name`, in order.
    pub fn kept_without(&self, name: &String) -> (kept: Vec<LicenseEntry<String>>)
        ensures
            kept.deep_view() == without_name(self.registry(), name@),
    {
        let mut kept: Vec<LicenseEntry<String>> = Vec::new();
        let mut i: usize = 0;
        while i < self.licenses.len()
            invariant
                i <= self.licenses.len(),
                kept.deep_view() == without_name(self.registry().take(i as int), name@),
            decreases self.licenses.len() - i,
        {
            let ghost before = self.registry().take(i as int);
            let ghost now = self.registry().take(i + 1);
            assert(now.drop_last() == before);
            assert(now.last() == (self.licenses[i as int].name@, self.licenses[i as int].hash@));
            if self.licenses[i].name != *name {
                kept.push(
                    LicenseEntry {
                        name: self.licenses[i].name.clone(),
                        hash: self.licenses[i].hash.clone(),
                    },
                );
                assert(kept.deep_view() == without_name(before, name@).push(now.last()));
            }
            i += 1;
        }
        assert(self.registry().take(self.licenses.len() as int) == self.registry());
        kept
    }

    /// Puts `hash` under `name`, in place of what stood there.
    pub fn upsert(&mut self, name: String, hash: String)
        ensures
            final(self).registry() == upserted(old(self).registry(), name@, hash@),
            final(self).same_settings(old(self)),
            final(self).wf(),
    {
        let mut kept = self.kept_without(&name);
        proof {
            use_type_invariant(&*self);
            lemma_upserted(self.registry(), name@, hash@);
        }
        let ghost before = kept.deep_view();
        kept.push(LicenseEntry { name, hash });
        assert(kept.deep_view() == before.push((name@, hash@)));
        self.licenses = kept;
    }

    /// Takes out what stands under `name`.
    pub fn remove_name(&mut self, name: &String)
        ensures
            final(self).registry() == without_name(old(self).registry(), name@),
            final(self).same_settings(old(self)),
            final(self).wf(),
    {
        let kept = self.kept_without(name);
        proof {
            use_type_invariant(&*self);
            lemma_without_name(self.registry(), name@);
        }
        self.licenses = kept;
    }

    /// Merges a store into the catalog: each of its entries is put in, in
    /// order.
    pub fn load_disk_data(&mut self, data: DiskData<String>)
        ensures
            final(self).registry() == merged(old(self).registry(), data.deep_view()),
            final(self).same_settings(old(self)),
            final(self).wf(),
    {
        proof {
            use_type_invariant(&*self);
        }
        let ghost loaded = data.deep_view();
        let mut i: usize = 0;
        while i < data.licenses.len()
            invariant
                i <= data.licenses.len(),
                loaded == data.deep_view(),
                self.registry() == merged(old(self).registry(), loaded.take(i as int)),
                self.same_settings(old(self)),
                self.wf(),
            decreases data.licenses.len() - i,
        {
            assert(loaded.take(i + 1).drop_last() == loaded.take(i as int));
            assert(loaded.take(i + 1).last() == (
                data.licenses[i as int].name@,
                data.licenses[i as int].hash@,
            ));
            self.upsert(data.licenses[i].name.clone(), data.licenses[i].hash.clone());
            i += 1;
        }
        assert(loaded.take(data.licenses.len() as int) == loaded);
    }

    /// The store that holds this catalog: its entries, in order.
    pub fn to_disk_data(&self) -> (data: DiskData<String>)
        ensures
            data.deep_view() == self.registry(),
            self.wf(),
    {
        proof {
            use_type_invariant(self);
        }
        let mut licenses: Vec<LicenseEntry<String>> = Vec::new();
        let mut i: usize = 0;
        while i < self.licenses.len()
            invariant
                i <= self.licenses.len(),
                licenses.deep_view() == self.registry().take(i as int),
            decreases self.licenses.len() - i,
        {
            licenses.push(
                LicenseEntry {
                    name: self.licenses[i].name.clone(),
                    hash: self.licenses[i].hash.clone(),
                },
            );
            assert(licenses.deep_view() == self.registry().take(i as int).push(
                (self.licenses[i as int].name@, self.licenses[i as int].hash@),
            ));
            assert(self.registry().take(i + 1) == self.registry().take(i as int).push(
                self.registry()[i as int],
            ));
            i += 1;
        }
        assert(self.registry().take(self.licenses.len() as int) == self.registry());
        DiskData { licenses }
    }
}

impl<N: Normalization> LicenseListActions<String> for FuzzyDetection<N> {
    type Normalizer = N;

    open spec fn names(&self) -> Set<Seq<char>> {
        names_of(self.registry())
    }

    open spec fn stores(&self, raw: Option<Seq<u8>>) -> bool {
        self.saves(raw)
    }

    open spec fn loads(&self, raw: Seq<u8>, after: &Self) -> bool {
        self.merges(raw, after)
    }

    open spec fn is_fresh_for(&self, other: &Self) -> bool {
        self.registry().len() == 0
    }

    proof fn lemma_store_round_trip(&self, fresh: &Self, loaded: &Self, raw: Seq<u8>) {
        lemma_text_store_round_trip(self.registry(), raw, decoded_text_entries(raw));
        assert(fresh.registry() =~= Seq::<TextEntry>::empty());
    }

    open spec fn text_query(&self, text: Seq<char>, outcome: QueryView) -> bool {
        self.answers_text(text, outcome)
    }

    open spec fn hash_query(&self, hash: Seq<char>, outcome: QueryView) -> bool {
        outcome == Ok::<Seq<MatchView>, DetectionError>(self.answer(hash))
    }

    open spec fn fingerprint_of(&self, text: Seq<char>, hash: Result<Seq<char>, DetectionError>) -> bool {
        self.digests(text, hash)
    }

    proof fn lemma_text_query_is_ranked(&self, text: Seq<char>, outcome: QueryView) {
        if let Ok(matches) = outcome {
            let normalized = choose|normalized: Seq<char>| #[trigger]
                self.normalizer().normalizes(text, normalized) && outcome
                    == self.answer_to_text(normalized);
            lemma_hits_are_named(
                self.registry(),
                ssdeep_digest(normalized),
                self.minimum(),
                self.exits_on_exact_match(),
            );
        }
    }

    proof fn lemma_hash_query_is_ranked(&self, hash: Seq<char>, outcome: QueryView) {
        lemma_hits_are_named(self.registry(), hash, self.minimum(), self.exits_on_exact_match());
    }

    fn match_by_plain_text(&self, plain_text: &str) -> (outcome: QueryResult)
        ensures
            self.answers_text(plain_text@, query_view(outcome)),
    {
        let normalized = self.normalization_fn.normalize(plain_text);
        assert(self.normalizer().normalizes(plain_text@, normalized@));
        match digest_text(normalized.as_str()) {
            Ok(digest) => self.match_by_hash(digest),
            Err(e) => Err(e),
        }
    }

    fn match_by_hash(&self, hash: String) -> (outcome: QueryResult)
        ensures
            query_view(outcome) == Ok::<Seq<MatchView>, DetectionError>(self.answer(hash@)),
    {
        let mut matches: Vec<LicenseMatch> = Vec::new();
        let framed = is_comparable(hash.as_str());
        let ghost entries = self.registry();
        let ghost query = hash@;
        let mut i: usize = 0;
        assert(entries.take(0) + scanned(
            entries.skip(0),
            query,
            self.min_confidence,
            self.exit_on_exact_match,
        ) == scanned(entries, query, self.min_confidence, self.exit_on_exact_match)) by {
            assert(entries.skip(0) == entries);
        }
        while i < self.licenses.len()
            invariant
                i <= self.licenses.len(),
                entries == self.registry(),
                query == hash@,
                framed == comparable(encode_utf8(query)),
                matches.deep_view() == rank(hits(entries.take(i as int), query, self.min_confidence)),
                entries.take(i as int) + scanned(
                    entries.skip(i as int),
                    query,
                    self.min_confidence,
                    self.exit_on_exact_match,
                ) == scanned(entries, query, self.min_confidence, self.exit_on_exact_match),
            decreases self.licenses.len() - i,
        {
            let entry = &self.licenses[i];
            let score: Option<u32> = if framed && is_comparable(entry.hash.as_str()) {
                score_of(fuzzy_compare(hash.as_str(), entry.hash.as_str()))
            } else {
                None
            };
            let ghost rest = entries.skip(i as int);
            proof {
                assert(entries[i as int] == (entry.name@, entry.hash@));
                assert(score_view(score) == score_against(query, entries[i as int].1));
                assert(entries.take(i + 1).drop_last() == entries.take(i as int));
                assert(entries.take(i + 1).last() == entries[i as int]);
                assert(rest[0] == entries[i as int]);
                assert(rest.skip(1) == entries.skip(i + 1));
                assert(entries.take(i as int) + seq![entries[i as int]] == entries.take(i + 1));
            }
            let taken = consider(&mut matches, &entry.name, score, self.min_confidence);
            proof {
                let before = hits(entries.take(i as int), query, self.min_confidence);
                let found = hit(query, entries[i as int]);
                assert(qualifies(query, entries[i as int], self.min_confidence) == taken);
                if taken {
                    assert(found == MatchView {
                        name: entry.name@,
                        confidence: confidence_at(score.unwrap() as nat),
                    });
                    assert(hits(entries.take(i + 1), query, self.min_confidence) == before.push(
                        found,
                    ));
                    assert(before.push(found).drop_last() == before);
                } else {
                    assert(hits(entries.take(i + 1), query, self.min_confidence) == before);
                }
            }
            let exact = match score {
                Some(s) => s == 100,
                None => false,
            };
            if taken && self.exit_on_exact_match && exact {
                assert(scanned(entries, query, self.min_confidence, self.exit_on_exact_match)
                    == entries.take(i + 1));
                return Ok(matches);
            }
            proof {
                assert(entries.take(i as int) + (seq![entries[i as int]] + scanned(
                    entries.skip(i + 1),
                    query,
                    self.min_confidence,
                    self.exit_on_exact_match,
                )) == entries.take(i + 1) + scanned(
                    entries.skip(i + 1),
                    query,
                    self.min_confidence,
                    self.exit_on_exact_match,
                ));
            }
            i += 1;
        }
        proof {
            assert(entries.take(i as int) == entries);
            assert(entries.skip(i as int).len() == 0);
            assert(entries + Seq::<TextEntry>::empty() == entries);
        }
        Ok(matches)
    }

    fn get_license_list(&self) -> (list: Vec<(String, String)>)
        ensures
            list.deep_view() == self.registry(),
    {
        let mut list: Vec<(String, String)> = Vec::new();
        let mut i: usize = 0;
        while i < self.licenses.len()
            invariant
                i <= self.licenses.len(),
                list.deep_view() == self.registry().take(i as int),
            decreases self.licenses.len() - i,
        {
            list.push((self.licenses[i].name.clone(), self.licenses[i].hash.clone()));
            assert(list.deep_view() == self.registry().take(i as int).push(
                (self.licenses[i as int].name@, self.licenses[i as int].hash@),
            ));
            assert(self.registry().take(i + 1) == self.registry().take(i as int).push(
                self.registry()[i as int],
            ));
            i += 1;
        }
        assert(self.registry().take(self.licenses.len() as int) == self.registry());
        list
    }

    fn add_plain(&mut self, license_name: &str, license_text: &str) -> (outcome: Result<
        (),
        DetectionError,
    >)
        ensures
            exists|normalized: Seq<char>| #[trigger]
                old(self).normalizer().normalizes(license_text@, normalized) && (
                match digest_of(normalized) {
                    Ok(digest) => outcome is Ok && final(self).registry() == upserted(
                        old(self).registry(),
                        license_name@,
                        digest,
                    ),
                    Err(e) => outcome == Err::<(), DetectionError>(e) && final(self).registry()
                        == old(self).registry(),
                }),
            final(self).same_settings(old(self)),
            final(self).wf(),
    {
        let normalized = self.normalization_fn.normalize(license_text);
        assert(self.normalizer().normalizes(license_text@, normalized@));
        proof {
            use_type_invariant(&*self);
        }
        match digest_text(normalized.as_str()) {
            Ok(digest) => {
                proof {
                    lemma_upserted(self.registry(), license_name@, digest@);
                }
                self.upsert(license_name.to_owned(), digest);
                Ok(())
            },
            Err(e) => Err(e),
        }
    }

    fn hash_from_inline_string(&self, license_text: &str) -> (hash: Result<
        String,
        DetectionError,
    >)
        ensures
            self.digests(
                license_text@,
                match hash {
                    Ok(h) => Ok(h@),
                    Err(e) => Err(e),
                },
            ),
    {
        let normalized = self.normalization_fn.normalize(license_text);
        assert(self.normalizer().normalizes(license_text@, normalized@));
        digest_text(normalized.as_str())
    }

    fn remove(&mut self, license_name: &str)
        ensures
            final(self).registry() == without_name(old(self).registry(), license_name@),
            final(self).same_settings(old(self)),
            final(self).wf(),
    {
        proof {
            lemma_without_name(self.registry(), license_name@);
        }
        self.remove_name(&license_name.to_owned());
    }

    fn load_from_memory(&mut self, raw: &Vec<u8>)
        ensures
            old(self).merges(raw@, final(self)),
    {
        proof {
            use_type_invariant(&*self);
            if let Some(loaded) = decoded_text_entries(raw@) {
                lemma_merged_keeps_names(self.registry(), loaded);
            }
        }
        match decode_text_store(raw.as_slice()) {
            Some(data) => self.load_disk_data(data),
            None => {},
        }
    }

    fn save_to_memory(&self) -> (raw: Option<Vec<u8>>)
        ensures
            self.saves(bytes_view(raw)),
    {
        let data = self.to_disk_data();
        encode_text_store(&data)
    }

    fn set_normalization_fn(&mut self, func: N)
        ensures
            final(self).normalizer() == func,
            final(self).registry() == old(self).registry(),
            final(self).minimum() == old(self).minimum(),
            final(self).exits_on_exact_match() == old(self).exits_on_exact_match(),
    {
        proof {
            use_type_invariant(&*self);
        }
        self.normalization_fn = func;
    }
}

} // verus!
