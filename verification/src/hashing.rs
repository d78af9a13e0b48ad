//! Fingerprinting a corpus that has been read: each text is brought to its
//! canonical form and hashed.

use vstd::prelude::*;
use crate::detecting::fuzzy_implementation::{digest_of, digest_text};
use crate::detecting::DetectionError;
use crate::license_tools::{
    canonical, strip_license, strip_spdx_heading, ComputedLicense, ComputedLicenseList,
    RawLicense,
};

verus! {

/// The digest of a text, taken as it is.
pub fn hash_license(l: &str) -> (digest: Result<String, DetectionError>)
    ensures
        (match digest {
            Ok(d) => Ok(d@),
            Err(e) => Err(e),
        }) == digest_of(l@),
{
    digest_text(l)
}

/// Whether `computed` holds, for each of the first texts of `raw`, its name
/// and the digest of its canonical form.
pub open spec fn is_computed(
    raw: Seq<(Seq<char>, Seq<char>)>,
    computed: Seq<(Seq<char>, Seq<char>)>,
) -> bool {
    &&& computed.len() <= raw.len()
    &&& forall|i: int|
        0 <= i < computed.len() ==> (#[trigger] computed[i]).0 == raw[i].0 && digest_of(
            canonical(raw[i].1),
        ) == Ok::<Seq<char>, DetectionError>(computed[i].1)
}

/// Fingerprints every text of a corpus, in order. A text whose canonical
/// form is too long to be hashed is an error, the first such text deciding.
pub fn process_all_licenses(licenses: &Vec<RawLicense>) -> (outcome: Result<
    ComputedLicenseList,
    DetectionError,
>)
    ensures
        match outcome {
            Ok(list) => is_computed(licenses.deep_view(), list.licenses.deep_view())
                && list.licenses.len() == licenses.len(),
            Err(e) => exists|k: int|
                0 <= k < licenses.len() && #[trigger] digest_of(
                    canonical(licenses.deep_view()[k].1),
                ) == Err::<Seq<char>, DetectionError>(e) && forall|i: int|
                    0 <= i < k ==> (#[trigger] digest_of(
                        canonical(licenses.deep_view()[i].1),
                    )) is Ok,
        },
{
    let mut computed: Vec<ComputedLicense> = Vec::new();
    let mut i: usize = 0;
    while i < licenses.len()
        invariant
            i <= licenses.len(),
            computed.len() == i,
            is_computed(licenses.deep_view(), computed.deep_view()),
        decreases licenses.len() - i,
    {
        let ghost before = computed.deep_view();
        let without = strip_spdx_heading(licenses[i].text.as_str());
        let stripped = strip_license(without.as_str());
        assert(stripped@ == canonical(licenses.deep_view()[i as int].1));
        match digest_text(stripped.as_str()) {
            Ok(hash) => {
                computed.push(ComputedLicense { name: licenses[i].name.clone(), hash });
                assert(computed.deep_view() == before.push((licenses[i as int].name@, hash@)));
            },
            Err(e) => {
                assert forall|j: int| 0 <= j < i implies (#[trigger] digest_of(
                    canonical(licenses.deep_view()[j].1),
                )) is Ok by {
                    assert(before[j].0 == licenses.deep_view()[j].0);
                }
                return Err(e);
            },
        }
        i += 1;
    }
    Ok(ComputedLicenseList { licenses: computed })
}

/// Fingerprints every text of a corpus with a hash function of the caller,
/// applied to the canonical form of each text.
pub fn process_all_licenses_manual<H: Fn(String) -> String>(
    licenses: &Vec<RawLicense>,
    hash_fn: H,
) -> (list: ComputedLicenseList)
    requires
        forall|text: String| call_requires(hash_fn, (text,)),
    ensures
        list.licenses.len() == licenses.len(),
        forall|i: int|
            0 <= i < licenses.len() ==> (#[trigger] list.licenses[i]).name@ == licenses[i].name@
                && exists|stripped: String, hash: String| #[trigger]
                call_ensures(hash_fn, (stripped,), hash) && stripped@ == canonical(
                    licenses[i].text@,
                ) && hash@ == list.licenses[i].hash@,
{
    let mut computed: Vec<ComputedLicense> = Vec::new();
    let mut i: usize = 0;
    while i < licenses.len()
        invariant
            i <= licenses.len(),
            computed.len() == i,
            forall|text: String| call_requires(hash_fn, (text,)),
            forall|j: int|
                0 <= j < i ==> (#[trigger] computed[j]).name@ == licenses[j].name@
                    && exists|stripped: String, hash: String| #[trigger]
                    call_ensures(hash_fn, (stripped,), hash) && stripped@ == canonical(
                        licenses[j].text@,
                    ) && hash@ == computed[j].hash@,
        decreases licenses.len() - i,
    {
        let ghost before = computed@;
        let without = strip_spdx_heading(licenses[i].text.as_str());
        let stripped = strip_license(without.as_str());
        let ghost handed = stripped;
        let hash = hash_fn(stripped);
        let ghost made = hash;
        computed.push(ComputedLicense { name: licenses[i].name.clone(), hash });
        assert forall|j: int| 0 <= j < i + 1 implies (#[trigger] computed[j]).name@
            == licenses[j].name@ && exists|stripped: String, hash: String| #[trigger]
            call_ensures(hash_fn, (stripped,), hash) && stripped@ == canonical(licenses[j].text@)
                && hash@ == computed[j].hash@ by {
            if j < i {
                assert(computed[j] == before[j]);
            } else {
                assert(call_ensures(hash_fn, (handed,), made));
            }
        }
        i += 1;
    }
    ComputedLicenseList { licenses: computed }
}

} // verus!
