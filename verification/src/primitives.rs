//! The three matchers that look at characters: the delimiter, the end of
//! the input and the encoded group.
use crate::alphabet::{char_to_number, group_value, is_digit, lemma_group_value_push};
use crate::input::split_first_ascii;
use crate::parser::{outcome_of, Outcome, ParseResult, Parser};
use vstd::prelude::*;

verus! {

/// The character that separates two groups.
pub const DELIMITER: char = '-';

/// The delimiter matcher on `input`: it consumes one delimiter at the
/// front, and fails on the spot where there is none.
pub open spec fn spec_dash(input: Seq<char>) -> Outcome<()> {
    if input.len() > 0 && input[0] == DELIMITER {
        Ok((input.drop_first(), ()))
    } else {
        Err(input)
    }
}

/// The end-of-input matcher on `input`: it succeeds, consuming nothing,
/// only where nothing remains.
pub open spec fn spec_empty(input: Seq<char>) -> Outcome<()> {
    if input.len() == 0 {
        Ok((input, ()))
    } else {
        Err(input)
    }
}

/// The number of characters of the alphabet at the front of `text`, up to
/// the first character that is not of the alphabet or the end.
pub open spec fn digit_run(text: Seq<char>) -> nat
    decreases text.len(),
{
    if text.len() > 0 && is_digit(text[0]) {
        1 + digit_run(text.drop_first())
    } else {
        0
    }
}

/// The group matcher on `input`: it consumes the longest run of characters
/// of the alphabet at the front and produces the value of that run; where
/// the run is empty it fails on the spot.
pub open spec fn spec_encoded_group(input: Seq<char>) -> Outcome<u32> {
    let n = digit_run(input) as int;
    if n == 0 {
        Err(input)
    } else {
        Ok((input.skip(n), group_value(input.take(n))))
    }
}

/// What `digit_run` is: it stays inside the text, everything before it is
/// of the alphabet, and the character at it, if any, is not.
pub proof fn lemma_digit_run(text: Seq<char>)
    ensures
        digit_run(text) <= text.len(),
        forall|i: int| 0 <= i < digit_run(text) ==> is_digit(#[trigger] text[i]),
        digit_run(text) < text.len() ==> !is_digit(text[digit_run(text) as int]),
    decreases text.len(),
{
    if text.len() > 0 && is_digit(text[0]) {
        let tail = text.drop_first();
        lemma_digit_run(tail);
        assert forall|i: int| 0 <= i < digit_run(text) implies is_digit(#[trigger] text[i]) by {
            if i > 0 {
                assert(text[i] == tail[i - 1]);
            }
        }
        if digit_run(text) < text.len() {
            assert(text[digit_run(text) as int] == tail[digit_run(tail) as int]);
        }
    }
}

/// Only one length is a maximal run of the alphabet at the front of `text`.
pub proof fn lemma_digit_run_unique(text: Seq<char>, n: int)
    requires
        0 <= n <= text.len(),
        forall|i: int| 0 <= i < n ==> is_digit(#[trigger] text[i]),
        n < text.len() ==> !is_digit(text[n]),
    ensures
        digit_run(text) == n,
{
    lemma_digit_run(text);
    let m = digit_run(text) as int;
    if m < n {
        assert(is_digit(text[m]));
    } else if n < m {
        assert(is_digit(text[n]));
    }
}

/// Recognises one delimiter at the front of `input`.
pub fn dash<'a>(input: &'a str) -> (r: ParseResult<'a, ()>)
    ensures
        outcome_of(r) == spec_dash(input@),
{
    match split_first_ascii(input) {
        Some((c, rest)) => if c == DELIMITER {
            Ok((rest, ()))
        } else {
            Err(input)
        },
        None => Err(input),
    }
}

/// Recognises the end of the input.
pub fn empty<'a>(input: &'a str) -> (r: ParseResult<'a, ()>)
    ensures
        outcome_of(r) == spec_empty(input@),
{
    if input.is_empty() {
        Ok((input, ()))
    } else {
        Err(input)
    }
}

/// Recognises one encoded group at the front of `input` and decodes it.
///
/// The group is read as a base-16 number, most significant digit first. The
/// number is accumulated in 32 bits and wraps around: the result is the
/// written number modulo 2^32, so that of a group of more than eight
/// characters only the last eight decide the value.
pub fn encoded_group<'a>(input: &'a str) -> (r: ParseResult<'a, u32>)
    ensures
        outcome_of(r) == spec_encoded_group(input@),
{
    let mut rest = input;
    let mut decoded: u32 = 0;
    let mut matched = false;
    let ghost mut n: int = 0;
    proof {
        assert(input@.skip(0) =~= input@);
        assert(input@.take(0) =~= Seq::<char>::empty());
    }
    loop
        invariant
            0 <= n <= input@.len(),
            rest@ == input@.skip(n),
            forall|i: int| 0 <= i < n ==> is_digit(#[trigger] input@[i]),
            decoded == group_value(input@.take(n)),
            matched <==> n > 0,
        ensures
            0 <= n <= input@.len(),
            rest@ == input@.skip(n),
            forall|i: int| 0 <= i < n ==> is_digit(#[trigger] input@[i]),
            decoded == group_value(input@.take(n)),
            matched <==> n > 0,
            n < input@.len() ==> !is_digit(input@[n]),
        decreases input@.len() - n,
    {
        match split_first_ascii(rest) {
            Some((c, next)) => match char_to_number(c) {
                Some(digit) => {
                    proof {
                        lemma_group_value_push(input@.take(n), c);
                        assert(input@.take(n).push(c) =~= input@.take(n + 1));
                        assert(rest@.drop_first() =~= input@.skip(n + 1));
                        n = n + 1;
                    }
                    decoded = decoded.wrapping_mul(16).wrapping_add(digit);
                    rest = next;
                    matched = true;
                },
                None => {
                    break ;
                },
            },
            None => {
                break ;
            },
        }
    }
    proof {
        lemma_digit_run_unique(input@, n);
    }
    if matched {
        Ok((rest, decoded))
    } else {
        Err(input)
    }
}

/// The delimiter matcher.
pub struct Dash;

/// The end-of-input matcher.
pub struct Empty;

/// The encoded-group matcher.
pub struct EncodedGroup;

impl Parser for Dash {
    type Output = ();

    open spec fn wf(&self) -> bool {
        true
    }

    open spec fn spec_parse(&self, input: Seq<char>) -> Outcome<()> {
        spec_dash(input)
    }

    proof fn lemma_position(&self, input: Seq<char>) {
        assert(input.skip(0) =~= input);
        if input.len() > 0 {
            assert(input.skip(1) =~= input.drop_first());
        }
    }

    fn parse<'a>(&self, input: &'a str) -> (r: ParseResult<'a, ()>) {
        dash(input)
    }
}

impl Parser for Empty {
    type Output = ();

    open spec fn wf(&self) -> bool {
        true
    }

    open spec fn spec_parse(&self, input: Seq<char>) -> Outcome<()> {
        spec_empty(input)
    }

    proof fn lemma_position(&self, input: Seq<char>) {
        assert(input.skip(0) =~= input);
    }

    fn parse<'a>(&self, input: &'a str) -> (r: ParseResult<'a, ()>) {
        empty(input)
    }
}

impl Parser for EncodedGroup {
    type Output = u32;

    open spec fn wf(&self) -> bool {
        true
    }

    open spec fn spec_parse(&self, input: Seq<char>) -> Outcome<u32> {
        spec_encoded_group(input)
    }

    proof fn lemma_position(&self, input: Seq<char>) {
        lemma_digit_run(input);
        assert(input.skip(0) =~= input);
    }

    fn parse<'a>(&self, input: &'a str) -> (r: ParseResult<'a, u32>) {
        encoded_group(input)
    }
}

} // verus!
