//! The contract that every matcher meets.
use vstd::prelude::*;

verus! {

/// What a matcher returns: on success the input that remains and the value
/// produced, on failure the input at the point where matching failed.
pub type ParseResult<'a, Output> = Result<(&'a str, Output), &'a str>;

/// A `ParseResult` as a mathematical value: texts are sequences of
/// characters, and the value produced is seen through its deep view.
pub type Outcome<V> = Result<(Seq<char>, V), Seq<char>>;

/// The outcome that a `ParseResult` stands for.
pub open spec fn outcome_of<'a, Output: DeepView>(r: ParseResult<'a, Output>) -> Outcome<
    Output::V,
> {
    match r {
        Ok((rest, value)) => Ok((rest@, value.deep_view())),
        Err(at) => Err(at@),
    }
}

/// The position that an outcome reports: the remaining input of a success,
/// the point of failure otherwise.
pub open spec fn position<V>(outcome: Outcome<V>) -> Seq<char> {
    match outcome {
        Ok((rest, _)) => rest,
        Err(at) => at,
    }
}

/// Whether `tail` is what remains of `text` after some of its leading
/// characters.
pub open spec fn is_suffix_of(tail: Seq<char>, text: Seq<char>) -> bool {
    tail.len() <= text.len() && tail == text.skip(text.len() - tail.len())
}

/// A matcher: it attempts to recognise a prefix of the input.
///
/// `spec_parse` says what the matcher does as a function of the input text;
/// `parse` computes exactly that. Matchers never change the input: every
/// position they report is a suffix of the text they were given.
pub trait Parser {
    /// The value produced on success.
    type Output: DeepView;

    /// What the matcher needs of its parts to work at all.
    spec fn wf(&self) -> bool;

    /// The outcome of the matcher on `input`.
    spec fn spec_parse(&self, input: Seq<char>) -> Outcome<<Self::Output as DeepView>::V>;

    /// The position reported for `input` is a suffix of `input`.
    proof fn lemma_position(&self, input: Seq<char>)
        requires
            self.wf(),
        ensures
            is_suffix_of(position(self.spec_parse(input)), input),
    ;

    /// Runs the matcher on `input`.
    fn parse<'a>(&self, input: &'a str) -> (r: ParseResult<'a, Self::Output>)
        requires
            self.wf(),
        ensures
            outcome_of(r) == self.spec_parse(input@),
    ;
}

/// Whether every success of `parser` consumes at least one character.
pub open spec fn advances<P: Parser>(parser: P) -> bool {
    forall|input: Seq<char>| #[trigger]
        parser.spec_parse(input) is Ok ==> position(parser.spec_parse(input)).len() < input.len()
}

} // verus!
