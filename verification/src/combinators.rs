//! Operators that build a matcher out of smaller ones: sequence,
//! transform, the two projections and repetition.
use crate::parser::{advances, is_suffix_of, position, Outcome, ParseResult, Parser};
use vstd::prelude::*;

verus! {

/// A function from the value of one matcher to the value of another, given
/// to `map`.
pub trait Transform<A: DeepView> {
    /// The value that comes out.
    type Output: DeepView;

    /// The function, on the views of the values.
    spec fn spec_apply(&self, value: A::V) -> <Self::Output as DeepView>::V;

    /// Applies the function to `value`.
    fn apply(&self, value: A) -> (r: Self::Output)
        ensures
            r.deep_view() == self.spec_apply(value.deep_view()),
    ;
}

/// Of a pair, the left value.
pub struct TakeLeft;

/// Of a pair, the right value.
pub struct TakeRight;

impl<A: DeepView, B: DeepView> Transform<(A, B)> for TakeLeft {
    type Output = A;

    open spec fn spec_apply(&self, value: (A::V, B::V)) -> A::V {
        value.0
    }

    fn apply(&self, value: (A, B)) -> (r: A)
        ensures
            r == value.0,
    {
        value.0
    }
}

impl<A: DeepView, B: DeepView> Transform<(A, B)> for TakeRight {
    type Output = B;

    open spec fn spec_apply(&self, value: (A::V, B::V)) -> B::V {
        value.1
    }

    fn apply(&self, value: (A, B)) -> (r: B)
        ensures
            r == value.1,
    {
        value.1
    }
}

/// Two matchers in sequence: see `pair`.
pub struct Pair<P, Q> {
    pub first: P,
    pub second: Q,
}

/// A matcher whose value is transformed: see `map`.
pub struct Mapped<P, F> {
    pub parser: P,
    pub map_fn: F,
}

/// A matcher applied one or more times: see `one_or_more`.
pub struct OneOrMore<P> {
    pub parser: P,
}

/// A suffix of a suffix is a suffix.
pub proof fn lemma_suffix_transitive(a: Seq<char>, b: Seq<char>, c: Seq<char>)
    requires
        is_suffix_of(a, b),
        is_suffix_of(b, c),
    ensures
        is_suffix_of(a, c),
{
    assert(a =~= c.skip(c.len() - a.len()));
}

/// Every text is a suffix of itself.
pub proof fn lemma_suffix_reflexive(a: Seq<char>)
    ensures
        is_suffix_of(a, a),
{
    assert(a =~= a.skip(0));
}

/// `parser` applied again and again from the front of `input` for as long
/// as it succeeds: the position before the first failing attempt, and the
/// values produced up to there, in order. An attempt that succeeds without
/// consuming anything ends the repetition as a failing one does.
pub open spec fn spec_many<P: Parser>(parser: P, input: Seq<char>) -> (
    Seq<char>,
    Seq<<P::Output as DeepView>::V>,
)
    decreases input.len(),
{
    match parser.spec_parse(input) {
        Ok((rest, value)) => if rest.len() < input.len() {
            let (end, values) = spec_many(parser, rest);
            (end, seq![value] + values)
        } else {
            (input, seq![])
        },
        Err(_) => (input, seq![]),
    }
}

/// Repetition ends at a suffix of the text it began with.
pub proof fn lemma_many_position<P: Parser>(parser: P, input: Seq<char>)
    requires
        parser.wf(),
    ensures
        is_suffix_of(spec_many(parser, input).0, input),
    decreases input.len(),
{
    lemma_suffix_reflexive(input);
    match parser.spec_parse(input) {
        Ok((rest, value)) => {
            if rest.len() < input.len() {
                parser.lemma_position(input);
                lemma_many_position(parser, rest);
                lemma_suffix_transitive(spec_many(parser, rest).0, rest, input);
            }
        },
        Err(_) => {},
    }
}

impl<P: Parser, Q: Parser> Parser for Pair<P, Q> {
    type Output = (P::Output, Q::Output);

    open spec fn wf(&self) -> bool {
        self.first.wf() && self.second.wf()
    }

    /// The first matcher on `input`, then the second on what the first
    /// left: the failure of whichever fails first, else both values and
    /// what the second left.
    open spec fn spec_parse(&self, input: Seq<char>) -> Outcome<
        (<P::Output as DeepView>::V, <Q::Output as DeepView>::V),
    > {
        match self.first.spec_parse(input) {
            Ok((next_input, result1)) => match self.second.spec_parse(next_input) {
                Ok((final_input, result2)) => Ok((final_input, (result1, result2))),
                Err(at) => Err(at),
            },
            Err(at) => Err(at),
        }
    }

    proof fn lemma_position(&self, input: Seq<char>) {
        self.first.lemma_position(input);
        match self.first.spec_parse(input) {
            Ok((next_input, _)) => {
                self.second.lemma_position(next_input);
                lemma_suffix_transitive(
                    position(self.second.spec_parse(next_input)),
                    next_input,
                    input,
                );
            },
            Err(_) => {},
        }
    }

    fn parse<'a>(&self, input: &'a str) -> (r: ParseResult<'a, Self::Output>) {
        match self.first.parse(input) {
            Ok((next_input, result1)) => match self.second.parse(next_input) {
                Ok((final_input, result2)) => Ok((final_input, (result1, result2))),
                Err(err) => Err(err),
            },
            Err(err) => Err(err),
        }
    }
}

impl<P: Parser, F: Transform<P::Output>> Parser for Mapped<P, F> {
    type Output = F::Output;

    open spec fn wf(&self) -> bool {
        self.parser.wf()
    }

    /// The matcher on `input`, with the function applied to the value of a
    /// success; the remaining input and every failure as they are.
    open spec fn spec_parse(&self, input: Seq<char>) -> Outcome<<F::Output as DeepView>::V> {
        match self.parser.spec_parse(input) {
            Ok((next_input, result)) => Ok((next_input, self.map_fn.spec_apply(result))),
            Err(at) => Err(at),
        }
    }

    proof fn lemma_position(&self, input: Seq<char>) {
        self.parser.lemma_position(input);
    }

    fn parse<'a>(&self, input: &'a str) -> (r: ParseResult<'a, Self::Output>) {
        match self.parser.parse(input) {
            Ok((next_input, result)) => Ok((next_input, self.map_fn.apply(result))),
            Err(err) => Err(err),
        }
    }
}

impl<P: Parser> Parser for OneOrMore<P> {
    type Output = Vec<P::Output>;

    /// The matcher that is repeated must consume at least one character
    /// whenever it succeeds: otherwise repeating it would never end.
    open spec fn wf(&self) -> bool {
        self.parser.wf() && advances(self.parser)
    }

    /// All the values of the repetition and the position where it ended;
    /// a failure at `input` where the first attempt fails.
    open spec fn spec_parse(&self, input: Seq<char>) -> Outcome<Seq<<P::Output as DeepView>::V>> {
        let (end, values) = spec_many(self.parser, input);
        if values.len() == 0 {
            Err(input)
        } else {
            Ok((end, values))
        }
    }

    proof fn lemma_position(&self, input: Seq<char>) {
        lemma_many_position(self.parser, input);
        lemma_suffix_reflexive(input);
    }

    fn parse<'a>(&self, input: &'a str) -> (r: ParseResult<'a, Self::Output>) {
        let mut result: Vec<P::Output> = Vec::new();
        let mut next_input = input;
        assert(result.deep_view() =~= Seq::empty());
        loop
            invariant
                self.parser.wf(),
                advances(self.parser),
                spec_many(self.parser, input@).0 == spec_many(self.parser, next_input@).0,
                spec_many(self.parser, input@).1 == result.deep_view() + spec_many(
                    self.parser,
                    next_input@,
                ).1,
            ensures
                spec_many(self.parser, input@) == (next_input@, result.deep_view()),
            decreases next_input@.len(),
        {
            match self.parser.parse(next_input) {
                Ok((next, next_item)) => {
                    let ghost before = result.deep_view();
                    let ghost tail = spec_many(self.parser, next@).1;
                    assert(self.parser.spec_parse(next_input@) is Ok);
                    assert(next@.len() < next_input@.len());
                    result.push(next_item);
                    assert(result.deep_view() =~= before.push(next_item.deep_view()));
                    assert(before + (seq![next_item.deep_view()] + tail) =~= before.push(
                        next_item.deep_view(),
                    ) + tail);
                    next_input = next;
                },
                Err(_) => {
                    assert(result.deep_view() + Seq::empty() =~= result.deep_view());
                    break ;
                },
            }
        }
        assert(result.deep_view().len() == result.len());
        if result.len() == 0 {
            Err(input)
        } else {
            Ok((next_input, result))
        }
    }
}

/// Sequence: runs `parser1`, then `parser2` on what `parser1` left. It
/// fails with the failure of whichever fails first, and on success
/// produces both values and what `parser2` left.
pub fn pair<P: Parser, Q: Parser>(parser1: P, parser2: Q) -> (r: Pair<P, Q>)
    ensures
        r == (Pair { first: parser1, second: parser2 }),
{
    Pair { first: parser1, second: parser2 }
}

/// Transform: runs `parser` and applies `map_fn` to the value it produced.
/// The remaining input of a success and every failure pass through
/// unchanged.
pub fn map<P: Parser, F: Transform<P::Output>>(parser: P, map_fn: F) -> (r: Mapped<P, F>)
    ensures
        r == (Mapped { parser, map_fn }),
{
    Mapped { parser, map_fn }
}

/// Project-left: both matchers in sequence, keeping the value of the first.
pub fn left<P: Parser, Q: Parser>(parser1: P, parser2: Q) -> (r: Mapped<Pair<P, Q>, TakeLeft>)
    ensures
        r == (Mapped { parser: Pair { first: parser1, second: parser2 }, map_fn: TakeLeft }),
{
    map(pair(parser1, parser2), TakeLeft)
}

/// Project-right: both matchers in sequence, keeping the value of the
/// second.
pub fn right<P: Parser, Q: Parser>(parser1: P, parser2: Q) -> (r: Mapped<
    Pair<P, Q>,
    TakeRight,
>)
    ensures
        r == (Mapped { parser: Pair { first: parser1, second: parser2 }, map_fn: TakeRight }),
{
    map(pair(parser1, parser2), TakeRight)
}

/// Repeat-one-or-more: applies `parser` for as long as it succeeds and
/// collects the values. It fails, at the position it began at, where the
/// first attempt fails. To be run, the result needs a `parser` that consumes
/// at least one character whenever it succeeds.
pub fn one_or_more<P: Parser>(parser: P) -> (r: OneOrMore<P>)
    ensures
        r == (OneOrMore { parser }),
{
    OneOrMore { parser }
}

} // verus!
