//! The block-hash backend's primitives: a text is cut into blocks, each block
//! is reduced to one rolling hash, and two fingerprints are compared position
//! by position under a budget of tolerated differences.

use vstd::prelude::*;
use vstd::slice::slice_subrange;
use crate::similarity::{
    agreements, lemma_agreements_bounded, lemma_agreements_reflexive,
    lemma_agreements_symmetric, lemma_share_bounded, share_hundredths, share_of,
};

verus! {

/// One step of the rolling polynomial: `31 * h + b`, wrapped to 64 bits.
pub open spec fn hash_step(h: i64, b: u8) -> i64 {
    h.wrapping_mul(31).wrapping_add(b as i64)
}

/// The rolling hash of a byte sequence, folded from the left, starting at 0.
pub open spec fn rolling_hash(bytes: Seq<u8>) -> i64
    decreases bytes.len(),
{
    if bytes.len() == 0 {
        0
    } else {
        hash_step(rolling_hash(bytes.drop_last()), bytes.last())
    }
}

/// The hash of one block: the rolling hash of its first `hash_length` bytes,
/// or of all of it where it is shorter.
pub open spec fn block_hash(buffer: Seq<u8>, hash_length: nat) -> i64 {
    if hash_length <= buffer.len() {
        rolling_hash(buffer.take(hash_length as int))
    } else {
        rolling_hash(buffer)
    }
}

/// The fingerprint of a text: the hashes of its consecutive blocks of
/// `block_size` bytes, the last block holding what is left.
pub open spec fn fingerprint(input: Seq<u8>, block_size: nat, hash_length: nat) -> Seq<i64>
    decreases input.len(),
{
    if input.len() == 0 || block_size == 0 {
        Seq::empty()
    } else if input.len() <= block_size {
        seq![block_hash(input, hash_length)]
    } else {
        seq![block_hash(input.take(block_size as int), hash_length)] + fingerprint(
            input.skip(block_size as int),
            block_size,
            hash_length,
        )
    }
}

/// Hashes the first `hash_length` bytes of `buffer`.
pub fn create_hash(buffer: &[u8], hash_length: usize) -> (hash: i64)
    ensures
        hash == block_hash(buffer@, hash_length as nat),
{
    let limit: usize = if hash_length <= buffer.len() {
        hash_length
    } else {
        buffer.len()
    };
    let mut hash: i64 = 0;
    let mut i: usize = 0;
    while i < limit
        invariant
            i <= limit <= buffer@.len(),
            hash == rolling_hash(buffer@.take(i as int)),
        decreases limit - i,
    {
        assert(buffer@.take(i + 1).drop_last() == buffer@.take(i as int));
        hash = hash.wrapping_mul(31).wrapping_add(buffer[i] as i64);
        i += 1;
    }
    assert(buffer@.take(buffer@.len() as int) == buffer@);
    hash
}

/// Fingerprints `input` in blocks of `block_size` bytes.
pub fn fuzzy_hash(input: &Vec<u8>, block_size: usize, hash_length: usize) -> (blocks: Vec<i64>)
    requires
        block_size > 0,
    ensures
        blocks@ == fingerprint(input@, block_size as nat, hash_length as nat),
{
    let mut blocks: Vec<i64> = Vec::new();
    let mut i: usize = 0;
    assert(input@.skip(0) == input@);
    while i < input.len()
        invariant
            block_size > 0,
            i <= input@.len(),
            blocks@ + fingerprint(input@.skip(i as int), block_size as nat, hash_length as nat)
                == fingerprint(input@, block_size as nat, hash_length as nat),
        decreases input@.len() - i,
    {
        let end: usize = if input.len() - i <= block_size {
            input.len()
        } else {
            i + block_size
        };
        let block = slice_subrange(input.as_slice(), i, end);
        let hash = create_hash(block, hash_length);
        proof {
            let rest = input@.skip(i as int);
            if input@.len() - i <= block_size {
                assert(block@ == rest);
                assert(input@.skip(end as int).len() == 0);
            } else {
                assert(block@ == rest.take(block_size as int));
                assert(rest.skip(block_size as int) == input@.skip(end as int));
            }
            assert((blocks@ + seq![hash]) + fingerprint(
                input@.skip(end as int),
                block_size as nat,
                hash_length as nat,
            ) == blocks@ + (seq![hash] + fingerprint(
                input@.skip(end as int),
                block_size as nat,
                hash_length as nat,
            )));
        }
        blocks.push(hash);
        i = end;
    }
    blocks
}

/// What a comparison of two fingerprints found.
#[derive(Clone, Copy, Debug, PartialEq, Eq, Structural)]
pub enum Comparison {
    /// The fingerprints are definitely no match: nothing is reported.
    NoMatch,
    /// The fingerprints agree at `common_blocks` of `max_blocks` positions.
    Similar { common_blocks: usize, max_blocks: usize },
}

impl View for Comparison {
    type V = Option<(nat, nat)>;

    open spec fn view(&self) -> Option<(nat, nat)> {
        match *self {
            Comparison::NoMatch => None,
            Comparison::Similar { common_blocks, max_blocks } => Some(
                (common_blocks as nat, max_blocks as nat),
            ),
        }
    }
}

/// The confidence that a comparison stands for, in hundredths of a percent.
pub open spec fn confidence_of(outcome: Option<(nat, nat)>) -> Option<nat> {
    match outcome {
        None => None,
        Some((common, max)) => Some(share_hundredths(common, max)),
    }
}

impl Comparison {
    /// The confidence in hundredths of a percent, or `None` for no match.
    pub fn confidence(&self) -> (confidence: Option<u32>)
        requires
            self@ matches Some((common, max)) ==> common <= max,
        ensures
            confidence == (match confidence_of(self@) {
                Some(c) => Some(c as u32),
                None => None,
            }),
            confidence matches Some(c) ==> c <= 10000,
    {
        match *self {
            Comparison::NoMatch => None,
            Comparison::Similar { common_blocks, max_blocks } => Some(
                share_of(common_blocks, max_blocks),
            ),
        }
    }
}

/// `part * n / 100`, rounded up.
pub open spec fn percent_of_ceil(percent: nat, n: nat) -> nat {
    ((percent * n + 99) / 100) as nat
}

/// The budget of differing blocks that a minimum confidence of
/// `min_confidence` percent leaves among `n_blocks` blocks.
pub open spec fn max_uncommon_blocks(min_confidence: nat, n_blocks: nat) -> nat {
    if percent_of_ceil(min_confidence, n_blocks) >= n_blocks {
        0
    } else {
        (n_blocks - percent_of_ceil(min_confidence, n_blocks)) as nat
    }
}

/// Computes the budget of differing blocks.
pub fn calc_max_uncommon_blocks(min_confidence: u8, n_blocks: usize) -> (budget: usize)
    ensures
        budget == max_uncommon_blocks(min_confidence as nat, n_blocks as nat),
        budget <= n_blocks,
{
    assert((min_confidence as u128) * (n_blocks as u128) <= 255 * 0xffff_ffff_ffff_ffff)
        by (nonlinear_arith)
        requires
            min_confidence <= 255,
            n_blocks <= 0xffff_ffff_ffff_ffff,
    ;
    let product: u128 = (min_confidence as u128) * (n_blocks as u128);
    let needed: u128 = (product + 99) / 100;
    if needed >= n_blocks as u128 {
        0
    } else {
        n_blocks - (needed as usize)
    }
}

/// The shorter of two lengths.
pub open spec fn shorter(a: nat, b: nat) -> nat {
    if a <= b {
        a
    } else {
        b
    }
}

/// The longer of two lengths.
pub open spec fn longer(a: nat, b: nat) -> nat {
    if a <= b {
        b
    } else {
        a
    }
}

/// The positions at which both fingerprints hold the same hash.
pub open spec fn common_blocks(a: Seq<i64>, b: Seq<i64>) -> nat {
    agreements(a, b, shorter(a.len(), b.len()))
}

/// The positions at which the two fingerprints do not agree: every position
/// of the longer one that is no common block.
pub open spec fn uncommon_blocks(a: Seq<i64>, b: Seq<i64>) -> nat {
    (longer(a.len(), b.len()) - common_blocks(a, b)) as nat
}

/// Whether the differences stay within what `min_confidence` percent allows.
/// A minimum of 0 sets no budget.
pub open spec fn within_budget(a: Seq<i64>, b: Seq<i64>, min_confidence: nat) -> bool {
    min_confidence == 0 || uncommon_blocks(a, b) <= max_uncommon_blocks(
        min_confidence,
        longer(a.len(), b.len()),
    )
}

/// The outcome of comparing two fingerprints: no match where the budget is
/// exceeded or where non-empty fingerprints share no position, else the
/// count of common positions out of the longer length.
pub open spec fn comparison_of(a: Seq<i64>, b: Seq<i64>, min_confidence: nat) -> Option<(nat, nat)> {
    let long = longer(a.len(), b.len());
    if !within_budget(a, b, min_confidence) || (long > 0 && common_blocks(a, b) == 0) {
        None
    } else {
        Some((common_blocks(a, b), long))
    }
}

/// Compares two fingerprints position by position. `min_confidence` is a
/// percentage.
pub fn compare_hashes(hash1: Vec<i64>, hash2: Vec<i64>, min_confidence: u8) -> (outcome: Comparison)
    ensures
        outcome@ == comparison_of(hash1@, hash2@, min_confidence as nat),
        outcome@ matches Some((common, max)) ==> common <= max,
{
    let len1 = hash1.len();
    let len2 = hash2.len();
    let (short, long): (usize, usize) = if len1 <= len2 {
        (len1, len2)
    } else {
        (len2, len1)
    };
    let bounded = min_confidence != 0;
    let budget: usize = if bounded {
        calc_max_uncommon_blocks(min_confidence, long)
    } else {
        0
    };
    let difference: usize = long - short;
    proof {
        lemma_agreements_bounded(hash1@, hash2@, short as nat);
    }
    // The positions that only the longer fingerprint has differ for sure.
    if bounded && difference > budget {
        return Comparison::NoMatch;
    }
    let mut allowed: usize = if bounded {
        budget - difference
    } else {
        0
    };
    let mut common: usize = 0;
    let mut i: usize = 0;
    while i < short
        invariant
            i <= short,
            short <= hash1@.len(),
            short <= hash2@.len(),
            common == agreements(hash1@, hash2@, i as nat),
            common <= i,
            short == shorter(hash1@.len(), hash2@.len()),
            long == longer(hash1@.len(), hash2@.len()),
            difference == long - short,
            bounded == (min_confidence != 0),
            bounded ==> budget == max_uncommon_blocks(min_confidence as nat, long as nat),
            bounded ==> allowed + (i - common) == budget - difference,
        decreases short - i,
    {
        if hash1[i] == hash2[i] {
            common += 1;
        } else if bounded {
            if allowed == 0 {
                proof {
                    lemma_mismatches_grow(hash1@, hash2@, (i + 1) as nat, short as nat);
                }
                return Comparison::NoMatch;
            }
            allowed -= 1;
        }
        i += 1;
    }
    if long > 0 && common == 0 {
        Comparison::NoMatch
    } else {
        Comparison::Similar { common_blocks: common, max_blocks: long }
    }
}

/// Looking at more positions never lowers the count of differences.
pub proof fn lemma_mismatches_grow(a: Seq<i64>, b: Seq<i64>, n: nat, m: nat)
    requires
        n <= m,
    ensures
        n - agreements(a, b, n) <= m - agreements(a, b, m),
    decreases m,
{
    if n < m {
        lemma_mismatches_grow(a, b, n, (m - 1) as nat);
    }
}

/// The budget is the minimum seen from the other side: the differences stay
/// within it exactly where the share of common blocks in the longer
/// fingerprint is at least `min_confidence` percent.
pub proof fn lemma_budget_is_the_minimum(a: Seq<i64>, b: Seq<i64>, min_confidence: nat)
    requires
        0 < min_confidence <= 100,
    ensures
        within_budget(a, b, min_confidence) <==> common_blocks(a, b) * 100 >= min_confidence
            * longer(a.len(), b.len()),
{
    let long = longer(a.len(), b.len());
    let common = common_blocks(a, b);
    lemma_agreements_bounded(a, b, shorter(a.len(), b.len()));
    assert(min_confidence * long <= 100 * long) by (nonlinear_arith)
        requires
            min_confidence <= 100,
    ;
}

/// A fingerprint compared with itself matches at every block, with full
/// confidence, whatever minimum is asked for.
pub proof fn lemma_compare_reflexive(a: Seq<i64>, min_confidence: nat)
    ensures
        comparison_of(a, a, min_confidence) == Some((a.len(), a.len())),
        confidence_of(comparison_of(a, a, min_confidence)) == Some(10000nat),
{
    lemma_agreements_reflexive(a, a.len());
    lemma_share_bounded(a.len(), a.len());
}

/// Any text, fingerprinted twice with the same parameters and compared with
/// itself, gives full confidence.
pub proof fn lemma_fingerprint_matches_itself(
    text: Seq<u8>,
    block_size: nat,
    hash_length: nat,
    min_confidence: nat,
)
    ensures
        confidence_of(
            comparison_of(
                fingerprint(text, block_size, hash_length),
                fingerprint(text, block_size, hash_length),
                min_confidence,
            ),
        ) == Some(10000nat),
{
    lemma_compare_reflexive(fingerprint(text, block_size, hash_length), min_confidence);
}

/// The outcome of a comparison does not depend on the order of the two
/// fingerprints.
pub proof fn lemma_compare_symmetric(a: Seq<i64>, b: Seq<i64>, min_confidence: nat)
    ensures
        comparison_of(a, b, min_confidence) == comparison_of(b, a, min_confidence),
{
    lemma_agreements_symmetric(a, b, shorter(a.len(), b.len()));
}

} // verus!
