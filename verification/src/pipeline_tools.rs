//! Refining a confidence: pipes that adjust a score by hand, and the
//! pipeline that rewrites a text round by round until a backend is
//! confident enough.

use vstd::prelude::*;
use crate::detecting::{DetectionError, LicenseListActions, LicenseMatch, QueryView};
use crate::ranking::top_confidence;
use crate::patterns::{regex_replace_all, regex_replaced, text_replace, text_replaced};

pub mod adjustment;
pub mod regex_pipeline;
pub mod diffing_pipeline;

verus! {

/// An outcome of rewriting a text, as contracts see it.
pub type Rewritten = Result<Seq<char>, DetectionError>;

/// What a segment looks for in the running text.
pub enum Using {
    /// A regular expression, as its pattern.
    Regex(String),
    /// A literal text.
    Text(String),
}

impl Using {
    /// The text with every occurrence replaced, or an error for a pattern
    /// that is no regular expression.
    pub open spec fn replaced(&self, text: Seq<char>, replacement: Seq<char>) -> Rewritten {
        match self {
            Using::Regex(pattern) => match regex_replaced(pattern@, text, replacement) {
                Some(out) => Ok(out),
                None => Err(DetectionError::MalformedInput),
            },
            Using::Text(from) => Ok(text_replaced(text, from@, replacement)),
        }
    }

    /// Replaces every occurrence in `text` by `replacement`.
    pub fn replace(&self, text: &str, replacement: &str) -> (out: Result<String, DetectionError>)
        ensures
            rewritten_view(out) == self.replaced(text@, replacement@),
    {
        match self {
            Using::Regex(pattern) => match regex_replace_all(pattern.as_str(), text, replacement) {
                Some(out) => Ok(out),
                None => Err(DetectionError::MalformedInput),
            },
            Using::Text(from) => Ok(text_replace(text, from.as_str(), replacement)),
        }
    }
}

/// Whether `text` holds the characters `content`.
pub open spec fn reads_as(text: &str, content: Seq<char>) -> bool {
    text@ == content
}

/// Always true. It only names the outcome of the segments that ran before
/// a step, so that the step can be pointed at in `chains_by`.
pub open spec fn names_outcome_before_step(out: Rewritten) -> bool {
    true
}

/// The view of an outcome of rewriting.
pub open spec fn rewritten_view(out: Result<String, DetectionError>) -> Rewritten {
    match out {
        Ok(text) => Ok(text@),
        Err(e) => Err(e),
    }
}

/// One step of a pipeline: a rewriting of the running text. `F` is the type
/// of the custom rewritings, which see the running text and the rounds
/// recorded so far.
pub enum Segment<F> {
    /// Takes every occurrence out of the running text.
    Remove(Using),
    /// Replaces every occurrence by the given text.
    Replace(Using, String),
    /// Rewrites the running text by a function of the caller.
    Custom(F),
    /// Runs several segments one after the other, as one step.
    Batch(Vec<Segment<F>>),
}

impl<F> Segment<F> {
    /// Whether `out` is an outcome of this segment on `incoming`, with the
    /// rounds `previous` on record, where `custom` says what a custom
    /// rewriting may make of a text.
    pub open spec fn rewrites_by(
        &self,
        custom: spec_fn(F, &str, &Vec<Vec<LicenseMatch>>, Rewritten) -> bool,
        incoming: &str,
        previous: &Vec<Vec<LicenseMatch>>,
        out: Rewritten,
    ) -> bool
        decreases self,
    {
        match self {
            Segment::Remove(using) => out == using.replaced(incoming@, Seq::empty()),
            Segment::Replace(using, replacement) => out == using.replaced(incoming@, replacement@),
            Segment::Custom(f) => custom(*f, incoming, previous, out),
            Segment::Batch(actions) => Self::chains_by(
                actions,
                actions.len() as nat,
                custom,
                incoming,
                previous,
                out,
            ),
        }
    }

    /// Whether `out` is an outcome of the first `n` of `actions`, run one
    /// after the other on `incoming`: each sees what the one before it
    /// made, and the first error ends the run.
    pub open spec fn chains_by(
        actions: &Vec<Segment<F>>,
        n: nat,
        custom: spec_fn(F, &str, &Vec<Vec<LicenseMatch>>, Rewritten) -> bool,
        incoming: &str,
        previous: &Vec<Vec<LicenseMatch>>,
        out: Rewritten,
    ) -> bool
        decreases actions, n,
    {
        if n == 0 || n > actions.len() {
            out == Ok::<Seq<char>, DetectionError>(incoming@)
        } else {
            exists|before: Rewritten| #[trigger]
                names_outcome_before_step(before) && Self::chains_by(
                    actions,
                    (n - 1) as nat,
                    custom,
                    incoming,
                    previous,
                    before,
                ) && match before {
                    Err(e) => out == Err::<Seq<char>, DetectionError>(e),
                    Ok(middle) => exists|text: &str| #[trigger]
                        reads_as(text, middle) && actions[n - 1].rewrites_by(
                            custom,
                            text,
                            previous,
                            out,
                        ),
                }
        }
    }

    /// Whether `holds_of` holds of every custom rewriting in this segment.
    pub open spec fn all_customs(&self, holds_of: spec_fn(F) -> bool) -> bool
        decreases self,
    {
        match self {
            Segment::Custom(f) => holds_of(*f),
            Segment::Batch(actions) => Self::all_customs_of(
                actions,
                actions.len() as nat,
                holds_of,
            ),
            _ => true,
        }
    }

    /// Whether `holds_of` holds of every custom rewriting in the first `n`
    /// of `actions`.
    pub open spec fn all_customs_of(
        actions: &Vec<Segment<F>>,
        n: nat,
        holds_of: spec_fn(F) -> bool,
    ) -> bool
        decreases actions, n,
    {
        if n == 0 || n > actions.len() {
            true
        } else {
            Self::all_customs_of(actions, (n - 1) as nat, holds_of) && actions[n - 1].all_customs(
                holds_of,
            )
        }
    }

    /// What holds of the customs of a list holds of those of each segment.
    pub proof fn lemma_each_of_all(
        actions: &Vec<Segment<F>>,
        n: nat,
        holds_of: spec_fn(F) -> bool,
        i: int,
    )
        requires
            Self::all_customs_of(actions, n, holds_of),
            0 <= i < n <= actions.len(),
        ensures
            actions[i].all_customs(holds_of),
        decreases n,
    {
        if i < n - 1 {
            Self::lemma_each_of_all(actions, (n - 1) as nat, holds_of, i);
        }
    }

    /// An error in a run of segments stays its outcome, whatever follows.
    pub proof fn lemma_error_ends_chain(
        actions: &Vec<Segment<F>>,
        k: nat,
        n: nat,
        custom: spec_fn(F, &str, &Vec<Vec<LicenseMatch>>, Rewritten) -> bool,
        incoming: &str,
        previous: &Vec<Vec<LicenseMatch>>,
        e: DetectionError,
    )
        requires
            1 <= k <= n <= actions.len(),
            Self::chains_by(actions, k, custom, incoming, previous, Err(e)),
        ensures
            Self::chains_by(actions, n, custom, incoming, previous, Err(e)),
        decreases n,
    {
        if k < n {
            Self::lemma_error_ends_chain(
                actions,
                k,
                (n - 1) as nat,
                custom,
                incoming,
                previous,
                e,
            );
            Self::lemma_chain_step(
                actions,
                n,
                custom,
                incoming,
                previous,
                Err(e),
                incoming,
                Err(e),
            );
        }
    }

    /// A run of `n` segments is a run of the first `n - 1` and a step of the
    /// `n`-th on what they made.
    pub proof fn lemma_chain_step(
        actions: &Vec<Segment<F>>,
        n: nat,
        custom: spec_fn(F, &str, &Vec<Vec<LicenseMatch>>, Rewritten) -> bool,
        incoming: &str,
        previous: &Vec<Vec<LicenseMatch>>,
        before: Rewritten,
        text: &str,
        out: Rewritten,
    )
        requires
            1 <= n <= actions.len(),
            Self::chains_by(actions, (n - 1) as nat, custom, incoming, previous, before),
            match before {
                Err(e) => out == Err::<Seq<char>, DetectionError>(e),
                Ok(middle) => actions[n - 1].rewrites_by(custom, text, previous, out) && text@
                    == middle,
            },
        ensures
            Self::chains_by(actions, n, custom, incoming, previous, out),
    {
        assert(names_outcome_before_step(before));
        if let Ok(middle) = before {
            assert(reads_as(text, middle));
        }
    }
}

impl<F: Fn(&str, &Vec<Vec<LicenseMatch>>) -> String> Segment<F> {
    /// What a custom rewriting may make of a text: whatever a call of it
    /// may return.
    pub open spec fn custom_outcome<'a>() -> spec_fn(
        F,
        &'a str,
        &'a Vec<Vec<LicenseMatch>>,
        Rewritten,
    ) -> bool {
        |f: F, incoming: &str, previous: &Vec<Vec<LicenseMatch>>, out: Rewritten|
            exists|text: String| #[trigger]
                call_ensures(f, (incoming, previous), text) && out == Ok::<
                    Seq<char>,
                    DetectionError,
                >(text@)
    }

    /// Whether a custom rewriting can be called on every text and record.
    pub open spec fn can_be_called() -> spec_fn(F) -> bool {
        |f: F|
            forall|text: &str, previous: &Vec<Vec<LicenseMatch>>| #[trigger]
                call_requires(f, (text, previous))
    }

    /// Whether `out` is an outcome of this segment on `incoming`, with the
    /// rounds `previous` on record.
    pub open spec fn rewrites(
        &self,
        incoming: &str,
        previous: &Vec<Vec<LicenseMatch>>,
        out: Rewritten,
    ) -> bool {
        self.rewrites_by(Self::custom_outcome(), incoming, previous, out)
    }

    /// Whether every custom rewriting in this segment can be called on every
    /// text and record.
    pub open spec fn is_total(&self) -> bool {
        self.all_customs(Self::can_be_called())
    }

    /// Rewrites `incoming_string`. `previous_matches` is handed to custom
    /// rewritings. A pattern that is no regular expression is an error, and
    /// ends a batch at once.
    pub fn execute(&self, incoming_string: &str, previous_matches: &Vec<Vec<LicenseMatch>>) -> (out:
        Result<String, DetectionError>)
        requires
            self.is_total(),
        ensures
            self.rewrites(incoming_string, previous_matches, rewritten_view(out)),
        decreases self,
    {
        match self {
            Segment::Remove(using) => {
                proof {
                    reveal_strlit("");
                }
                assert(""@ == Seq::<char>::empty());
                using.replace(incoming_string, "")
            },
            Segment::Replace(using, replacement) => using.replace(
                incoming_string,
                replacement.as_str(),
            ),
            Segment::Custom(f) => {
                let text = f(incoming_string, previous_matches);
                assert(call_ensures(*f, (incoming_string, previous_matches), text));
                Ok(text)
            },
            Segment::Batch(actions) => {
                let mut license = incoming_string.to_owned();
                let mut i: usize = 0;
                let ghost custom = Self::custom_outcome();
                while i < actions.len()
                    invariant
                        i <= actions.len(),
                        custom == Self::custom_outcome(),
                        Self::all_customs_of(
                            actions,
                            actions.len() as nat,
                            Self::can_be_called(),
                        ),
                        decreases_to!(self => actions),
                        *self == Segment::Batch(*actions),
                        Self::chains_by(
                            actions,
                            i as nat,
                            custom,
                            incoming_string,
                            previous_matches,
                            Ok(license@),
                        ),
                    decreases actions.len() - i,
                {
                    proof {
                        Self::lemma_each_of_all(
                            actions,
                            actions.len() as nat,
                            Self::can_be_called(),
                            i as int,
                        );
                        vstd::std_specs::vec::axiom_vec_index_decreases(*actions, i as int);
                        assert(decreases_to!(actions => actions[i as int]));
                    }
                    let ghost before = Ok::<Seq<char>, DetectionError>(license@);
                    let current = license.as_str();
                    let step = actions[i].execute(current, previous_matches);
                    proof {
                        assert(actions[i as int].rewrites_by(
                            custom,
                            current,
                            previous_matches,
                            rewritten_view(step),
                        ) && current@ == license@);
                        Self::lemma_chain_step(
                            actions,
                            (i + 1) as nat,
                            custom,
                            incoming_string,
                            previous_matches,
                            before,
                            current,
                            rewritten_view(step),
                        );
                    }
                    match step {
                        Ok(next) => {
                            license = next;
                        },
                        Err(e) => {
                            proof {
                                Self::lemma_error_ends_chain(
                                    actions,
                                    (i + 1) as nat,
                                    actions.len() as nat,
                                    custom,
                                    incoming_string,
                                    previous_matches,
                                    e,
                                );
                            }
                            return Err(e);
                        },
                    }
                    i += 1;
                }
                Ok(license)
            },
        }
    }
}

/// The target above which no confidence can lie, in hundredths of a percent:
/// a pipeline with this target runs every segment.
pub const RUN_TO_COMPLETION: u32 = 10100;

/// The target that a pipeline works with: the desired confidence, held to
/// at most 101 percent.
pub open spec fn clamp_target(desired_confidence: u32) -> u32 {
    if desired_confidence > RUN_TO_COMPLETION {
        RUN_TO_COMPLETION
    } else {
        desired_confidence
    }
}

/// Whether `text` and `record` hold the characters `content` and the rounds
/// `history`.
pub open spec fn records(
    text: &str,
    record: Vec<Vec<LicenseMatch>>,
    content: Seq<char>,
    history: Seq<Vec<LicenseMatch>>,
) -> bool {
    text@ == content && record@ == history
}

/// Whether `round` is an answer of the backend to the text `content`.
pub open spec fn answers<T: DeepView, A: LicenseListActions<T>>(
    alg: &A,
    content: Seq<char>,
    round: QueryView,
) -> bool {
    alg.text_query(content, round)
}

/// The confidence of the first match of a round, and 0 for an empty round.
pub fn top_of(round: &Vec<LicenseMatch>) -> (top: u32)
    ensures
        top == top_confidence(round.deep_view()),
{
    if round.len() == 0 {
        0
    } else {
        round[0].confidence
    }
}

/// An ordered list of segments that a text is run through.
pub struct Pipeline<F> {
    pub segments: Vec<Segment<F>>,
}

impl<F: Fn(&str, &Vec<Vec<LicenseMatch>>) -> String> Pipeline<F> {
    /// Whether every custom rewriting in the pipeline can be called on every
    /// text and record.
    pub open spec fn is_total(&self) -> bool {
        forall|i: int| 0 <= i < self.segments.len() ==> (#[trigger] self.segments[i]).is_total()
    }

    /// A pipeline of the given segments.
    pub fn new(segments: Vec<Segment<F>>) -> (pipeline: Self)
        ensures
            pipeline.segments == segments,
    {
        Pipeline { segments }
    }

    /// Whether `out` is an outcome of segment `i` on the text `content`,
    /// with the rounds `history` on record.
    pub open spec fn steps(
        &self,
        i: int,
        content: Seq<char>,
        history: Seq<Vec<LicenseMatch>>,
        out: Rewritten,
    ) -> bool {
        exists|text: &str, record: Vec<Vec<LicenseMatch>>| #[trigger]
            records(text, record, content, history) && self.segments[i].rewrites(
                text,
                &record,
                out,
            )
    }

    /// Whether `rounds` are the first rounds of a run on `incoming`, none
    /// but the last of which met the target, and `texts` the texts that
    /// they queried: round 0 queries the incoming text, and round `i` the
    /// text that segment `i - 1` makes of the text of round `i - 1`.
    pub open spec fn is_progress<T: DeepView, A: LicenseListActions<T>>(
        &self,
        alg: &A,
        incoming: Seq<char>,
        target: u32,
        texts: Seq<Seq<char>>,
        rounds: Seq<Vec<LicenseMatch>>,
    ) -> bool {
        &&& texts.len() == rounds.len()
        &&& rounds.len() <= self.segments.len() + 1
        &&& rounds.len() > 0 ==> texts[0] == incoming
        &&& forall|i: int|
            0 <= i < rounds.len() ==> answers(alg, texts[i], Ok((#[trigger] rounds[i]).deep_view()))
        &&& forall|i: int|
            1 <= i < rounds.len() ==> self.steps(
                i - 1,
                texts[i - 1],
                rounds.take(i),
                Ok(#[trigger] texts[i]),
            )
        &&& forall|i: int|
            0 <= i < rounds.len() - 1 ==> top_confidence((#[trigger] rounds[i]).deep_view())
                < target
    }

    /// Whether a run ends after `rounds`: the last round met the target, or
    /// no segment is left.
    pub open spec fn is_complete(&self, target: u32, rounds: Seq<Vec<LicenseMatch>>) -> bool {
        rounds.len() >= 1 && (rounds.len() == self.segments.len() + 1 || top_confidence(
            rounds.last().deep_view(),
        ) >= target)
    }

    /// Whether a run fails with `e` after `rounds`, none of which met the
    /// target: the backend refuses the incoming text, or the next segment
    /// fails, or the backend refuses what the next segment made.
    pub open spec fn fails_after<T: DeepView, A: LicenseListActions<T>>(
        &self,
        alg: &A,
        incoming: Seq<char>,
        target: u32,
        texts: Seq<Seq<char>>,
        rounds: Seq<Vec<LicenseMatch>>,
        e: DetectionError,
    ) -> bool {
        let n = rounds.len() as int;
        &&& n <= self.segments.len()
        &&& n > 0 ==> top_confidence(rounds.last().deep_view()) < target
        &&& if n == 0 {
            answers(alg, incoming, Err(e))
        } else {
            ||| self.steps(n - 1, texts[n - 1], rounds, Err(e))
            ||| exists|made: Seq<char>| #[trigger]
                self.steps(n - 1, texts[n - 1], rounds, Ok(made)) && answers(alg, made, Err(e))
        }
    }

    /// Whether `outcome` is an outcome of a run on `incoming` towards
    /// `target`.
    pub open spec fn is_run<T: DeepView, A: LicenseListActions<T>>(
        &self,
        alg: &A,
        incoming: Seq<char>,
        target: u32,
        outcome: Result<Vec<Vec<LicenseMatch>>, DetectionError>,
    ) -> bool {
        match outcome {
            Ok(results) => exists|texts: Seq<Seq<char>>| #[trigger]
                self.is_progress(alg, incoming, target, texts, results@) && self.is_complete(
                    target,
                    results@,
                ),
            Err(e) => exists|texts: Seq<Seq<char>>, rounds: Seq<Vec<LicenseMatch>>| #[trigger]
                self.is_progress(alg, incoming, target, texts, rounds) && self.fails_after(
                    alg,
                    incoming,
                    target,
                    texts,
                    rounds,
                    e,
                ),
        }
    }

    /// One more round extends a run that has not met its target.
    pub proof fn lemma_progress_extends<T: DeepView, A: LicenseListActions<T>>(
        &self,
        alg: &A,
        incoming: Seq<char>,
        target: u32,
        texts: Seq<Seq<char>>,
        rounds: Seq<Vec<LicenseMatch>>,
        made: Seq<char>,
        round: Vec<LicenseMatch>,
    )
        requires
            self.is_progress(alg, incoming, target, texts, rounds),
            1 <= rounds.len() <= self.segments.len(),
            top_confidence(rounds.last().deep_view()) < target,
            self.steps(rounds.len() - 1, texts.last(), rounds, Ok(made)),
            answers(alg, made, Ok(round.deep_view())),
        ensures
            self.is_progress(alg, incoming, target, texts.push(made), rounds.push(round)),
    {
        let n = rounds.len() as int;
        let texts2 = texts.push(made);
        let rounds2 = rounds.push(round);
        assert forall|i: int| 0 <= i < rounds2.len() implies answers(
            alg,
            texts2[i],
            Ok((#[trigger] rounds2[i]).deep_view()),
        ) by {
            if i < n {
                assert(rounds2[i] == rounds[i] && texts2[i] == texts[i]);
            }
        }
        assert forall|i: int| 1 <= i < rounds2.len() implies self.steps(
            i - 1,
            texts2[i - 1],
            rounds2.take(i),
            Ok(#[trigger] texts2[i]),
        ) by {
            assert(texts2[i - 1] == texts[i - 1]);
            if i < n {
                assert(rounds2.take(i) == rounds.take(i));
                assert(texts2[i] == texts[i]);
            } else {
                assert(rounds2.take(i) == rounds);
            }
        }
        assert forall|i: int| 0 <= i < rounds2.len() - 1 implies top_confidence(
            (#[trigger] rounds2[i]).deep_view(),
        ) < target by {
            assert(rounds2[i] == rounds[i]);
        }
    }

    /// Rounds that end a run are the outcome of a run.
    pub proof fn lemma_run_completes<T: DeepView, A: LicenseListActions<T>>(
        &self,
        alg: &A,
        incoming: Seq<char>,
        target: u32,
        texts: Seq<Seq<char>>,
        results: Vec<Vec<LicenseMatch>>,
    )
        requires
            self.is_progress(alg, incoming, target, texts, results@),
            self.is_complete(target, results@),
        ensures
            self.is_run(alg, incoming, target, Ok(results)),
    {
        let out = Ok::<Vec<Vec<LicenseMatch>>, DetectionError>(results);
        assert(out matches Ok(rounds) && rounds@ == results@);
        assert(exists|texts: Seq<Seq<char>>| #[trigger]
            self.is_progress(alg, incoming, target, texts, results@) && self.is_complete(
                target,
                results@,
            ));
        assert(self.is_run(alg, incoming, target, out));
    }

    /// A run that succeeds has round 0, and at most one round more for each
    /// segment.
    pub proof fn lemma_round_zero_is_recorded<T: DeepView, A: LicenseListActions<T>>(
        &self,
        alg: &A,
        incoming: Seq<char>,
        target: u32,
        results: Vec<Vec<LicenseMatch>>,
    )
        requires
            self.is_run(alg, incoming, target, Ok(results)),
        ensures
            1 <= results.len() <= self.segments.len() + 1,
            answers(alg, incoming, Ok(results[0].deep_view())),
    {
        let texts = choose|texts: Seq<Seq<char>>| #[trigger]
            self.is_progress(alg, incoming, target, texts, results@) && self.is_complete(
                target,
                results@,
            );
        assert(answers(alg, texts[0], Ok(results@[0].deep_view())));
    }

    /// A run stops at the first round that meets the target: none of the
    /// rounds before the last one met it.
    pub proof fn lemma_stops_at_first_hit<T: DeepView, A: LicenseListActions<T>>(
        &self,
        alg: &A,
        incoming: Seq<char>,
        target: u32,
        results: Vec<Vec<LicenseMatch>>,
        i: int,
    )
        requires
            self.is_run(alg, incoming, target, Ok(results)),
            0 <= i < results.len() - 1,
        ensures
            top_confidence(results[i].deep_view()) < target,
    {
        let texts = choose|texts: Seq<Seq<char>>| #[trigger]
            self.is_progress(alg, incoming, target, texts, results@) && self.is_complete(
                target,
                results@,
            );
        assert(top_confidence(results@[i].deep_view()) < target);
    }

    /// A desired confidence above 100 percent is never met: a run towards it
    /// that succeeds has a round for every segment.
    pub proof fn lemma_unreachable_target_runs_every_segment<
        T: DeepView,
        A: LicenseListActions<T>,
    >(
        &self,
        alg: &A,
        incoming: Seq<char>,
        desired_confidence: u32,
        results: Vec<Vec<LicenseMatch>>,
    )
        requires
            desired_confidence > 10000,
            self.is_run(alg, incoming, clamp_target(desired_confidence), Ok(results)),
        ensures
            results.len() == self.segments.len() + 1,
    {
        let target = clamp_target(desired_confidence);
        let texts = choose|texts: Seq<Seq<char>>| #[trigger]
            self.is_progress(alg, incoming, target, texts, results@) && self.is_complete(
                target,
                results@,
            );
        let last = results@.len() - 1;
        let round = results@[last].deep_view();
        assert(answers(alg, texts[last], Ok(round)));
        alg.lemma_text_query_is_ranked(texts[last], Ok(round));
        if round.len() > 0 {
            assert(round[0].confidence <= 10000);
        }
    }

    /// Runs the pipeline on `incoming_license` against the backend `alg`.
    /// `desired_confidence` is in hundredths of a percent. Round 0 queries
    /// the text as it came; each further round rewrites the text of the
    /// round before by the next segment and queries what that made. The run
    /// ends with the first round whose top confidence meets the target, or
    /// with the last segment, and returns the rounds in order. The first
    /// failure of a segment or of the backend ends it with that error.
    pub fn run<T: DeepView, A: LicenseListActions<T>>(
        &self,
        alg: &A,
        incoming_license: &str,
        desired_confidence: u32,
    ) -> (outcome: Result<Vec<Vec<LicenseMatch>>, DetectionError>)
        requires
            self.is_total(),
        ensures
            self.is_run(alg, incoming_license@, clamp_target(desired_confidence), outcome),
    {
        let target: u32 = if desired_confidence > RUN_TO_COMPLETION {
            RUN_TO_COMPLETION
        } else {
            desired_confidence
        };
        let ghost incoming = incoming_license@;
        let mut piped_string = incoming_license.to_owned();
        let mut pipeline_results: Vec<Vec<LicenseMatch>> = Vec::new();
        let ghost mut texts: Seq<Seq<char>> = Seq::empty();
        let first_text = piped_string.as_str();
        let first = alg.match_by_plain_text(first_text);
        let mut top_match_confidence: u32 = match first {
            Ok(alg_match_results) => {
                let top = top_of(&alg_match_results);
                pipeline_results.push(alg_match_results);
                top
            },
            Err(e) => {
                assert(self.is_progress(
                    alg,
                    incoming,
                    target,
                    texts,
                    Seq::<Vec<LicenseMatch>>::empty(),
                ));
                assert(self.fails_after(
                    alg,
                    incoming,
                    target,
                    texts,
                    Seq::<Vec<LicenseMatch>>::empty(),
                    e,
                ));
                return Err(e);
            },
        };
        proof {
            texts = seq![incoming];
            assert(answers(alg, incoming, Ok(pipeline_results@[0].deep_view())));
            assert(self.is_progress(alg, incoming, target, texts, pipeline_results@));
        }
        if top_match_confidence >= target {
            proof {
                self.lemma_run_completes(alg, incoming, target, texts, pipeline_results);
            }
            return Ok(pipeline_results);
        }
        let mut i: usize = 0;
        while i < self.segments.len()
            invariant
                i <= self.segments.len(),
                self.is_total(),
                target == clamp_target(desired_confidence),
                incoming == incoming_license@,
                pipeline_results.len() == i + 1,
                self.is_progress(alg, incoming, target, texts, pipeline_results@),
                texts.last() == piped_string@,
                top_match_confidence == top_confidence(pipeline_results@.last().deep_view()),
                top_match_confidence < target,
            decreases self.segments.len() - i,
        {
            let ghost rounds = pipeline_results@;
            let current = piped_string.as_str();
            assert(self.segments[i as int].is_total());
            let rewritten = self.segments[i].execute(current, &pipeline_results);
            proof {
                assert(records(current, pipeline_results, texts.last(), rounds));
            }
            let next = match rewritten {
                Ok(next) => next,
                Err(e) => {
                    assert(self.steps(i as int, texts.last(), rounds, Err(e)));
                    assert(self.fails_after(alg, incoming, target, texts, rounds, e));
                    return Err(e);
                },
            };
            let ghost made = next@;
            assert(self.steps(i as int, texts.last(), rounds, Ok(made)));
            piped_string = next;
            let queried = piped_string.as_str();
            let answer = alg.match_by_plain_text(queried);
            match answer {
                Ok(alg_match_results) => {
                    top_match_confidence = top_of(&alg_match_results);
                    proof {
                        self.lemma_progress_extends(
                            alg,
                            incoming,
                            target,
                            texts,
                            rounds,
                            made,
                            alg_match_results,
                        );
                        texts = texts.push(made);
                    }
                    pipeline_results.push(alg_match_results);
                },
                Err(e) => {
                    assert(answers(alg, made, Err(e)));
                    assert(self.fails_after(alg, incoming, target, texts, rounds, e));
                    return Err(e);
                },
            }
            if top_match_confidence >= target {
                proof {
                    self.lemma_run_completes(alg, incoming, target, texts, pipeline_results);
                }
                return Ok(pipeline_results);
            }
            i += 1;
        }
        proof {
            self.lemma_run_completes(alg, incoming, target, texts, pipeline_results);
        }
        Ok(pipeline_results)
    }
}

} // verus!
