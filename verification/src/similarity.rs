//! Positional agreement between two sequences, the measure both backends
//! rank by, and the scale on which a confidence is reported.

use vstd::prelude::*;

verus! {

/// A full confidence, in hundredths of a percent.
pub const FULL_CONFIDENCE: u32 = 10000;

/// How many positions below `n` hold the same value in `a` and in `b`.
pub open spec fn agreements<T>(a: Seq<T>, b: Seq<T>, n: nat) -> nat
    decreases n,
{
    if n == 0 {
        0
    } else {
        agreements(a, b, (n - 1) as nat) + if a[n - 1] == b[n - 1] {
            1nat
        } else {
            0nat
        }
    }
}

/// The share `part / whole` in hundredths of a percent, rounded down. Two
/// empty things agree in full.
pub open spec fn share_hundredths(part: nat, whole: nat) -> nat {
    if whole == 0 {
        10000
    } else {
        (part * 10000) / whole
    }
}

/// No more positions agree than were looked at.
pub proof fn lemma_agreements_bounded<T>(a: Seq<T>, b: Seq<T>, n: nat)
    ensures
        agreements(a, b, n) <= n,
    decreases n,
{
    if n > 0 {
        lemma_agreements_bounded(a, b, (n - 1) as nat);
    }
}

/// Agreement does not depend on which sequence is named first.
pub proof fn lemma_agreements_symmetric<T>(a: Seq<T>, b: Seq<T>, n: nat)
    ensures
        agreements(a, b, n) == agreements(b, a, n),
    decreases n,
{
    if n > 0 {
        lemma_agreements_symmetric(a, b, (n - 1) as nat);
    }
}

/// A sequence agrees with itself at every position.
pub proof fn lemma_agreements_reflexive<T>(a: Seq<T>, n: nat)
    ensures
        agreements(a, a, n) == n,
    decreases n,
{
    if n > 0 {
        lemma_agreements_reflexive(a, (n - 1) as nat);
    }
}

/// A share of a whole is at most the whole: never above 100 percent.
pub proof fn lemma_share_bounded(part: nat, whole: nat)
    requires
        part <= whole,
    ensures
        share_hundredths(part, whole) <= 10000,
        part == whole ==> share_hundredths(part, whole) == 10000,
{
    if whole > 0 {
        assert(part * 10000 <= whole * 10000) by (nonlinear_arith)
            requires
                part <= whole,
        ;
        assert((part * 10000) / whole <= 10000) by (nonlinear_arith)
            requires
                part * 10000 <= whole * 10000,
                whole > 0,
        ;
        if part == whole {
            assert((whole * 10000) / whole == 10000) by (nonlinear_arith)
                requires
                    whole > 0,
            ;
        }
    }
}

/// Computes `share_hundredths` for machine integers.
pub fn share_of(part: usize, whole: usize) -> (share: u32)
    requires
        part <= whole,
    ensures
        share == share_hundredths(part as nat, whole as nat),
        share <= FULL_CONFIDENCE,
{
    proof {
        lemma_share_bounded(part as nat, whole as nat);
    }
    if whole == 0 {
        FULL_CONFIDENCE
    } else {
        let scaled: u128 = (part as u128) * 10000;
        let quotient: u128 = scaled / (whole as u128);
        quotient as u32
    }
}

} // verus!
