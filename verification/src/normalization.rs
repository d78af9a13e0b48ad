//! Strategies that bring a text to a canonical form before it is
//! fingerprinted. A catalog applies its strategy to the texts that it stores
//! and to the texts that it is queried with alike.

use vstd::prelude::*;
use crate::license_tools::{canonical, strip_license, strip_spdx_heading, without_whitespace};

verus! {

/// A way of bringing a text to a canonical form.
pub trait Normalization {
    /// Whether `out` is a canonical form that this strategy gives `text`.
    spec fn normalizes(&self, text: Seq<char>, out: Seq<char>) -> bool;

    /// Brings `text` to its canonical form.
    fn normalize(&self, text: &str) -> (out: String)
        ensures
            self.normalizes(text@, out@),
    ;
}

/// The default strategy: the structured preamble, where a text has one, and
/// blanks, tabs and line ends are taken out.
#[derive(Clone, Copy, Debug)]
pub struct Canonical;

impl Normalization for Canonical {
    open spec fn normalizes(&self, text: Seq<char>, out: Seq<char>) -> bool {
        out == canonical(text)
    }

    fn normalize(&self, text: &str) -> (out: String) {
        let without = strip_spdx_heading(text);
        strip_license(without.as_str())
    }
}

/// The strategy that takes out blanks, tabs and line ends.
#[derive(Clone, Copy, Debug)]
pub struct StripLicense;

impl Normalization for StripLicense {
    open spec fn normalizes(&self, text: Seq<char>, out: Seq<char>) -> bool {
        out == without_whitespace(text)
    }

    fn normalize(&self, text: &str) -> (out: String) {
        strip_license(text)
    }
}

/// The strategy that leaves a text as it is.
#[derive(Clone, Copy, Debug)]
pub struct Verbatim;

impl Normalization for Verbatim {
    open spec fn normalizes(&self, text: Seq<char>, out: Seq<char>) -> bool {
        out == text
    }

    fn normalize(&self, text: &str) -> (out: String) {
        text.to_owned()
    }
}

/// A strategy given as a function of the caller.
pub struct FnNormalization<F: Fn(&str) -> String> {
    function: F,
}

impl<F: Fn(&str) -> String> FnNormalization<F> {
    #[verifier::type_invariant]
    spec fn is_total(self) -> bool {
        forall|text: &str| #[trigger] call_requires(self.function, (text,))
    }

    /// The function that this strategy applies.
    pub closed spec fn applied(&self) -> F {
        self.function
    }

    /// The strategy that applies `function`, which every text can be handed
    /// to.
    pub fn new(function: F) -> (strategy: Self)
        requires
            forall|text: &str| #[trigger] call_requires(function, (text,)),
        ensures
            strategy.applied() == function,
    {
        FnNormalization { function }
    }
}

impl<F: Fn(&str) -> String> Normalization for FnNormalization<F> {
    open spec fn normalizes(&self, text: Seq<char>, out: Seq<char>) -> bool {
        exists|given: &str, made: String| #[trigger]
            call_ensures(self.applied(), (given,), made) && given@ == text && made@ == out
    }

    fn normalize(&self, text: &str) -> (out: String) {
        proof {
            use_type_invariant(self);
        }
        let out = (self.function)(text);
        assert(call_ensures(self.applied(), (text,), out));
        out
    }
}

} // verus!
