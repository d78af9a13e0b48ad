//! What every backend shares: the shape of a match, of a stored entry and of
//! the persisted store, and the contract that a backend fulfils.

use vstd::prelude::*;
use crate::ranking::is_descending;

pub mod fuzzy_implementation;
pub mod gaoya_implementation;

verus! {

/// One candidate of a query: the name of a known text and how closely the
/// queried text resembles it, in hundredths of a percent (10000 is 100%).
#[derive(Debug)]
pub struct LicenseMatch {
    pub name: String,
    pub confidence: u32,
}

/// A match as contracts see it.
pub struct MatchView {
    pub name: Seq<char>,
    pub confidence: u32,
}

impl View for LicenseMatch {
    type V = MatchView;

    open spec fn view(&self) -> MatchView {
        MatchView { name: self.name@, confidence: self.confidence }
    }
}

impl DeepView for LicenseMatch {
    type V = MatchView;

    open spec fn deep_view(&self) -> MatchView {
        self@
    }
}

impl Clone for LicenseMatch {
    fn clone(&self) -> (copy: Self)
        ensures
            copy@ == self@,
    {
        LicenseMatch { name: self.name.clone(), confidence: self.confidence }
    }
}

/// One known text of the catalog: its unique name and its fingerprint.
#[derive(Debug, Clone)]
pub struct LicenseEntry<HT> {
    pub name: String,
    pub hash: HT,
}

impl<HT: DeepView> DeepView for LicenseEntry<HT> {
    type V = (Seq<char>, HT::V);

    open spec fn deep_view(&self) -> (Seq<char>, HT::V) {
        (self.name@, self.hash.deep_view())
    }
}

/// The persisted store: the entries of a catalog, in order.
#[derive(Debug, Clone)]
pub struct DiskData<K> {
    pub licenses: Vec<LicenseEntry<K>>,
}

impl<K: DeepView> DeepView for DiskData<K> {
    type V = Seq<(Seq<char>, K::V)>;

    open spec fn deep_view(&self) -> Seq<(Seq<char>, K::V)> {
        self.licenses.deep_view()
    }
}

/// Why an operation was refused.
#[derive(Clone, Copy, Debug, PartialEq, Eq, Structural)]
pub enum DetectionError {
    /// A pattern that is no valid regular expression.
    MalformedInput,
    /// A text too long to be fingerprinted or compared.
    InputTooLarge,
}

/// The result of a query: ranked matches, or why there are none.
pub type QueryResult = Result<Vec<LicenseMatch>, DetectionError>;

/// The same, over views.
pub type QueryView = Result<Seq<MatchView>, DetectionError>;

/// The view of a query's result.
pub open spec fn query_view(outcome: QueryResult) -> QueryView {
    match outcome {
        Ok(matches) => Ok(matches.deep_view()),
        Err(e) => Err(e),
    }
}

/// The names under which a list of entries stands.
pub open spec fn names_of<H>(entries: Seq<(Seq<char>, H)>) -> Set<Seq<char>> {
    Set::new(|name: Seq<char>| exists|i: int| 0 <= i < entries.len() && entries[i].0 == name)
}

/// Whether no match is more confident than 100 percent.
pub open spec fn all_in_range(matches: Seq<MatchView>) -> bool {
    forall|i: int| 0 <= i < matches.len() ==> (#[trigger] matches[i]).confidence <= 10000
}

/// Whether every match carries a registered name.
pub open spec fn all_named_in(matches: Seq<MatchView>, names: Set<Seq<char>>) -> bool {
    forall|i: int| 0 <= i < matches.len() ==> names.contains(#[trigger] matches[i].name)
}

/// What a matching backend offers: a catalog of named fingerprints that
/// texts are added to and removed from, and queries that rank the catalog
/// against a text or against a fingerprint of type `T`.
pub trait LicenseListActions<T: DeepView> {
    /// The strategy that canonicalizes a text before it is fingerprinted.
    type Normalizer;

    /// The names in the catalog.
    spec fn names(&self) -> Set<Seq<char>>;

    /// Whether `outcome` is an answer of this catalog to a query with `text`.
    spec fn text_query(&self, text: Seq<char>, outcome: QueryView) -> bool;

    /// Whether `outcome` is an answer of this catalog to a query with `hash`.
    spec fn hash_query(&self, hash: T::V, outcome: QueryView) -> bool;

    /// Whether `raw` is what saving this catalog gives: the bytes of its
    /// store, or nothing where the store cannot be encoded.
    spec fn stores(&self, raw: Option<Seq<u8>>) -> bool;

    /// Whether `after` is this catalog with what `raw` holds merged in: the
    /// entries of the store where `raw` is one, and nothing where it is not.
    spec fn loads(&self, raw: Seq<u8>, after: &Self) -> bool;

    /// Whether this catalog is empty and set up as `other` is.
    spec fn is_fresh_for(&self, other: &Self) -> bool;

    /// Whether `hash` is a fingerprint that `text` has here.
    spec fn fingerprint_of(&self, text: Seq<char>, hash: Result<T::V, DetectionError>) -> bool;

    /// An answer to a text never ascends, names only what the catalog
    /// holds, and stays within 100 percent.
    proof fn lemma_text_query_is_ranked(&self, text: Seq<char>, outcome: QueryView)
        requires
            self.text_query(text, outcome),
        ensures
            outcome matches Ok(matches) ==> is_descending(matches) && all_named_in(
                matches,
                self.names(),
            ) && all_in_range(matches),
    ;

    /// An answer to a fingerprint never ascends, names only what the
    /// catalog holds, and stays within 100 percent.
    proof fn lemma_hash_query_is_ranked(&self, hash: T::V, outcome: QueryView)
        requires
            self.hash_query(hash, outcome),
        ensures
            outcome matches Ok(matches) ==> is_descending(matches) && all_named_in(
                matches,
                self.names(),
            ) && all_in_range(matches),
    ;

    /// Saving, loading what was saved into a fresh catalog and saving that
    /// gives the bytes that were saved first, and the fresh catalog then
    /// holds the names that the saved one holds.
    proof fn lemma_store_round_trip(&self, fresh: &Self, loaded: &Self, raw: Seq<u8>)
        requires
            self.stores(Some(raw)),
            fresh.is_fresh_for(self),
            fresh.loads(raw, loaded),
        ensures
            loaded.stores(Some(raw)),
            loaded.names() == self.names(),
    ;

    /// Normalizes and fingerprints `plain_text`, then ranks the catalog
    /// against the fingerprint.
    fn match_by_plain_text(&self, plain_text: &str) -> (outcome: QueryResult)
        ensures
            self.text_query(plain_text@, query_view(outcome)),
    ;

    /// Ranks the catalog against `hash`.
    fn match_by_hash(&self, hash: T) -> (outcome: QueryResult)
        ensures
            self.hash_query(hash.deep_view(), query_view(outcome)),
    ;

    /// The catalog's entries, each name once.
    fn get_license_list(&self) -> (list: Vec<(String, T)>)
        ensures
            names_of(list.deep_view()) == self.names(),
    ;

    /// Adds the text under `license_name`, in place of what stood there.
    fn add_plain(&mut self, license_name: &str, license_text: &str) -> (outcome: Result<
        (),
        DetectionError,
    >)
        ensures
            outcome is Ok ==> final(self).names() == old(self).names().insert(license_name@),
            outcome is Err ==> final(self).names() == old(self).names(),
    ;

    /// Fingerprints `license_text` as `add_plain` would, and stores nothing.
    fn hash_from_inline_string(&self, license_text: &str) -> (hash: Result<T, DetectionError>)
        ensures
            self.fingerprint_of(
                license_text@,
                match hash {
                    Ok(h) => Ok(h.deep_view()),
                    Err(e) => Err(e),
                },
            ),
    ;

    /// Takes `license_name` out of the catalog. A name that is not there is
    /// no error.
    fn remove(&mut self, license_name: &str)
        ensures
            final(self).names() == old(self).names().remove(license_name@),
    ;

    /// Reads a store from `raw` and merges it into the catalog: what was
    /// there under another name stays. Bytes that are no store change
    /// nothing.
    fn load_from_memory(&mut self, raw: &Vec<u8>)
        ensures
            old(self).loads(raw@, final(self)),
            old(self).names().subset_of(final(self).names()),
    ;

    /// The store that holds the catalog, as bytes, or `None` where the
    /// store cannot be encoded.
    fn save_to_memory(&self) -> (raw: Option<Vec<u8>>)
        ensures
            self.stores(
                match raw {
                    Some(bytes) => Some(bytes@),
                    None => None,
                },
            ),
    ;

    /// Changes the normalization strategy. The catalog stays as it is.
    fn set_normalization_fn(&mut self, func: Self::Normalizer)
        ensures
            final(self).names() == old(self).names(),
    ;
}

/// Once a name is removed, no answer to a text holds it.
pub proof fn lemma_removed_name_is_not_returned<T: DeepView, A: LicenseListActions<T>>(
    before: &A,
    after: &A,
    name: Seq<char>,
    text: Seq<char>,
    outcome: QueryView,
)
    requires
        after.names() == before.names().remove(name),
        after.text_query(text, outcome),
    ensures
        outcome matches Ok(matches) ==> forall|i: int|
            0 <= i < matches.len() ==> (#[trigger] matches[i]).name != name,
{
    after.lemma_text_query_is_ranked(text, outcome);
    if let Ok(matches) = outcome {
        assert forall|i: int| 0 <= i < matches.len() implies (#[trigger] matches[i]).name
            != name by {
            assert(after.names().contains(matches[i].name));
        }
    }
}

/// Once a name is removed, no answer to a fingerprint holds it.
pub proof fn lemma_removed_name_is_not_matched<T: DeepView, A: LicenseListActions<T>>(
    before: &A,
    after: &A,
    name: Seq<char>,
    hash: T::V,
    outcome: QueryView,
)
    requires
        after.names() == before.names().remove(name),
        after.hash_query(hash, outcome),
    ensures
        outcome matches Ok(matches) ==> forall|i: int|
            0 <= i < matches.len() ==> (#[trigger] matches[i]).name != name,
{
    after.lemma_hash_query_is_ranked(hash, outcome);
    if let Ok(matches) = outcome {
        assert forall|i: int| 0 <= i < matches.len() implies (#[trigger] matches[i]).name
            != name by {
            assert(after.names().contains(matches[i].name));
        }
    }
}

/// An empty catalog answers a fingerprint with an empty list, where it
/// answers.
pub proof fn lemma_empty_catalog_matches_nothing<T: DeepView, A: LicenseListActions<T>>(
    catalog: &A,
    hash: T::V,
    outcome: QueryView,
)
    requires
        catalog.names() == Set::<Seq<char>>::empty(),
        catalog.hash_query(hash, outcome),
    ensures
        outcome matches Ok(matches) ==> matches.len() == 0,
{
    catalog.lemma_hash_query_is_ranked(hash, outcome);
    if let Ok(matches) = outcome {
        if matches.len() > 0 {
            assert(catalog.names().contains(matches[0].name));
        }
    }
}

/// An empty catalog answers a text with an empty list, where it answers.
pub proof fn lemma_empty_catalog_answers_nothing<T: DeepView, A: LicenseListActions<T>>(
    catalog: &A,
    text: Seq<char>,
    outcome: QueryView,
)
    requires
        catalog.names() == Set::<Seq<char>>::empty(),
        catalog.text_query(text, outcome),
    ensures
        outcome matches Ok(matches) ==> matches.len() == 0,
{
    catalog.lemma_text_query_is_ranked(text, outcome);
    if let Ok(matches) = outcome {
        if matches.len() > 0 {
            assert(catalog.names().contains(matches[0].name));
        }
    }
}

} // verus!
