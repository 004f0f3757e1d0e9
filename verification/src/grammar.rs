//! The format of a reference: a group, then one or more times a delimiter
//! and a group, then the end of the input.
use crate::alphabet::{group_value, is_digit};
use crate::combinators::{
    left, one_or_more, pair, right, spec_many, Mapped, OneOrMore, Pair, TakeLeft, TakeRight,
};
use crate::parser::{advances, position, Parser};
use crate::primitives::{
    digit_run, lemma_digit_run, Dash, Empty, EncodedGroup, DELIMITER,
};
use vstd::prelude::*;

verus! {

/// A delimiter and the group after it, producing the group's value.
pub type DelimitedGroup = Mapped<Pair<Dash, EncodedGroup>, TakeRight>;

/// The matcher of the whole format.
pub type ReferenceStructure = Mapped<
    Pair<Pair<EncodedGroup, OneOrMore<DelimitedGroup>>, Empty>,
    TakeLeft,
>;

/// The number of characters of `text` before its first delimiter, or the
/// length of `text` where it holds none.
pub open spec fn field_len(text: Seq<char>) -> nat
    decreases text.len(),
{
    if text.len() == 0 || text[0] == DELIMITER {
        0
    } else {
        1 + field_len(text.drop_first())
    }
}

/// The parts into which the delimiters cut `text`, in order. A text
/// without a delimiter is one part; two delimiters in a row, or one at
/// either end, leave an empty part.
pub open spec fn split_groups(text: Seq<char>) -> Seq<Seq<char>>
    decreases text.len(),
{
    let n = field_len(text) as int;
    if n >= text.len() {
        seq![text]
    } else {
        seq![text.take(n)] + split_groups(text.skip(n + 1))
    }
}

/// Whether `part` is a group: a non-empty run of characters of the
/// alphabet.
pub open spec fn is_group(part: Seq<char>) -> bool {
    part.len() > 0 && forall|i: int| 0 <= i < part.len() ==> is_digit(#[trigger] part[i])
}

/// Whether every one of `parts` is a group.
pub open spec fn all_groups(parts: Seq<Seq<char>>) -> bool {
    forall|i: int| 0 <= i < parts.len() ==> is_group(#[trigger] parts[i])
}

/// The values of `parts`, each read as a group.
pub open spec fn values_of(parts: Seq<Seq<char>>) -> Seq<u32> {
    Seq::new(parts.len(), |i: int| group_value(parts[i]))
}

/// Whether `text` has the format of a reference: cut at its delimiters it
/// gives two or more parts, and every part is a group.
pub open spec fn is_reference_text(text: Seq<char>) -> bool {
    split_groups(text).len() >= 2 && all_groups(split_groups(text))
}

/// What the format yields on `text`: the value of the first group and the
/// values of the groups after it, in order; nothing where `text` does not
/// have the format.
pub open spec fn spec_reference_structure(text: Seq<char>) -> Option<(u32, Seq<u32>)> {
    if is_reference_text(text) {
        let values = values_of(split_groups(text));
        Some((values[0], values.skip(1)))
    } else {
        None
    }
}

/// The matcher of a delimiter followed by a group.
pub open spec fn delimited_group() -> DelimitedGroup {
    Mapped { parser: Pair { first: Dash, second: EncodedGroup }, map_fn: TakeRight }
}

/// The matcher of the whole format, as `create_reference_structure_parser`
/// builds it.
pub open spec fn reference_structure() -> ReferenceStructure {
    Mapped {
        parser: Pair {
            first: Pair { first: EncodedGroup, second: OneOrMore { parser: delimited_group() } },
            second: Empty,
        },
        map_fn: TakeLeft,
    }
}

/// A delimiter followed by a group consumes at least the delimiter.
pub proof fn lemma_delimited_group_advances()
    ensures
        delimited_group().wf(),
        advances(delimited_group()),
{
    let p = delimited_group();
    assert forall|input: Seq<char>| #[trigger] p.spec_parse(input) is Ok implies position(
        p.spec_parse(input),
    ).len() < input.len() by {
        lemma_digit_run(input.drop_first());
    }
}

/// Builds the matcher of the whole format: a group, one or more times a
/// delimiter and a group, and the end of the input, keeping the value of
/// the first group and the values of the others. What it accepts and
/// produces is stated without the matchers by `lemma_reference_structure`.
pub fn create_reference_structure_parser() -> (r: ReferenceStructure)
    ensures
        r == reference_structure(),
        r.wf(),
{
    proof {
        lemma_delimited_group_advances();
    }
    left(pair(EncodedGroup, one_or_more(right(Dash, EncodedGroup))), Empty)
}

/// What `field_len` is: it stays inside the text, no delimiter stands
/// before it, and the character at it, if any, is a delimiter.
pub proof fn lemma_field_len(text: Seq<char>)
    ensures
        field_len(text) <= text.len(),
        forall|i: int| 0 <= i < field_len(text) ==> #[trigger] text[i] != DELIMITER,
        field_len(text) < text.len() ==> text[field_len(text) as int] == DELIMITER,
    decreases text.len(),
{
    if !(text.len() == 0 || text[0] == DELIMITER) {
        let tail = text.drop_first();
        lemma_field_len(tail);
        assert forall|i: int| 0 <= i < field_len(text) implies #[trigger] text[i]
            != DELIMITER by {
            if i > 0 {
                assert(text[i] == tail[i - 1]);
            }
        }
        if field_len(text) < text.len() {
            assert(text[field_len(text) as int] == tail[field_len(tail) as int]);
        }
    }
}

/// The run of the alphabet at the front of a text ends before the first
/// delimiter or at it: no delimiter is of the alphabet.
pub proof fn lemma_digit_run_within_field(text: Seq<char>)
    ensures
        digit_run(text) <= field_len(text),
{
    lemma_digit_run(text);
    lemma_field_len(text);
    if field_len(text) < digit_run(text) {
        assert(is_digit(text[field_len(text) as int]));
    }
}

/// What a group followed by any number of delimited groups yields where
/// that takes `text` to its end: the values of all these groups.
pub open spec fn spec_groups_to_end(text: Seq<char>) -> Option<Seq<u32>> {
    match EncodedGroup.spec_parse(text) {
        Ok((rest, value)) => {
            let (end, values) = spec_many(delimited_group(), rest);
            if end.len() == 0 {
                Some(seq![value] + values)
            } else {
                None
            }
        },
        Err(_) => None,
    }
}

/// Matching group after group to the end of a text succeeds exactly where
/// every part of the text is a group, and yields the parts' values.
pub proof fn lemma_groups_to_end(text: Seq<char>)
    ensures
        spec_groups_to_end(text) == if all_groups(split_groups(text)) {
            Some(values_of(split_groups(text)))
        } else {
            None
        },
    decreases text.len(),
{
    let parts = split_groups(text);
    let n = digit_run(text) as int;
    let f = field_len(text) as int;
    lemma_digit_run(text);
    lemma_field_len(text);
    lemma_digit_run_within_field(text);
    let head = text.take(f);
    assert(parts[0] == head) by {
        if f >= text.len() {
            assert(text.take(f) =~= text);
        }
    }
    if n < f {
        // The first part holds a character that is not of the alphabet, or
        // the text begins with one.
        assert(head[n] == text[n]);
        assert(!is_group(head));
        if n > 0 {
            let rest = text.skip(n);
            assert(rest[0] == text[n]);
            assert(delimited_group().spec_parse(rest) is Err);
        }
    } else if n == 0 {
        assert(!is_group(head));
    } else {
        let rest = text.skip(n);
        let value = group_value(text.take(n));
        assert(is_group(head)) by {
            assert forall|i: int| 0 <= i < head.len() implies is_digit(#[trigger] head[i]) by {
                assert(head[i] == text[i]);
            }
        }
        if f >= text.len() {
            assert(rest.len() == 0);
            assert(parts =~= seq![text]);
            assert(values_of(parts) =~= seq![value] + Seq::<u32>::empty());
        } else {
            let after = text.skip(f + 1);
            assert(rest[0] == text[f]);
            assert(rest.drop_first() =~= after);
            let later = split_groups(after);
            assert(parts == seq![head] + later);
            lemma_groups_to_end(after);
            assert(all_groups(parts) <==> all_groups(later)) by {
                if all_groups(parts) {
                    assert forall|i: int| 0 <= i < later.len() implies is_group(
                        #[trigger] later[i],
                    ) by {
                        assert(later[i] == parts[i + 1]);
                    }
                }
                if all_groups(later) {
                    assert forall|i: int| 0 <= i < parts.len() implies is_group(
                        #[trigger] parts[i],
                    ) by {
                        if i > 0 {
                            assert(parts[i] == later[i - 1]);
                        }
                    }
                }
            }
            assert(values_of(parts) =~= seq![value] + values_of(later));
            match EncodedGroup.spec_parse(after) {
                Ok((next, second)) => {
                    lemma_digit_run(after);
                    assert(delimited_group().spec_parse(rest) == Ok::<
                        (Seq<char>, u32),
                        Seq<char>,
                    >((next, second)));
                    assert(next.len() < rest.len());
                },
                Err(_) => {
                    assert(delimited_group().spec_parse(rest) is Err);
                },
            }
        }
    }
}

/// The matcher of the whole format accepts exactly the texts that have the
/// format, consumes them whole, and produces the values of their groups.
pub proof fn lemma_reference_structure(text: Seq<char>)
    ensures
        match reference_structure().spec_parse(text) {
            Ok((rest, value)) => rest.len() == 0 && spec_reference_structure(text) == Some(value),
            Err(_) => spec_reference_structure(text) is None,
        },
{
    lemma_groups_to_end(text);
    let parts = split_groups(text);
    match EncodedGroup.spec_parse(text) {
        Ok((rest, first)) => {
            let (end, others) = spec_many(delimited_group(), rest);
            if end.len() == 0 {
                assert(values_of(parts) == seq![first] + others);
                assert(values_of(parts).skip(1) =~= others);
                assert(parts.len() == 1 + others.len());
            }
        },
        Err(_) => {},
    }
}

/// Only one length reaches from the front of `text` to its first
/// delimiter, or to its end where it holds none.
pub proof fn lemma_field_len_unique(text: Seq<char>, n: int)
    requires
        0 <= n <= text.len(),
        forall|i: int| 0 <= i < n ==> #[trigger] text[i] != DELIMITER,
        n < text.len() ==> text[n] == DELIMITER,
    ensures
        field_len(text) == n,
{
    lemma_field_len(text);
    let f = field_len(text) as int;
    if f < n {
        assert(text[f] != DELIMITER);
    } else if n < f {
        assert(text[n] != DELIMITER);
    }
}

/// Whether `text` holds a delimiter.
pub open spec fn has_delimiter(text: Seq<char>) -> bool {
    exists|i: int| 0 <= i < text.len() && #[trigger] text[i] == DELIMITER
}

/// Whether `text` is made of groups, one or more, with one delimiter
/// between any two: it starts with a character of the alphabet, holds
/// nothing but such characters and delimiters, and after every delimiter
/// comes a character of the alphabet.
pub open spec fn is_delimited_groups(text: Seq<char>) -> bool {
    &&& text.len() > 0
    &&& is_digit(text[0])
    &&& forall|i: int| 0 <= i < text.len() ==> is_digit(#[trigger] text[i]) || text[i] == DELIMITER
    &&& forall|i: int|
        0 <= i < text.len() && #[trigger] text[i] == DELIMITER ==> i + 1 < text.len() && is_digit(
            text[i + 1],
        )
}

/// A text is cut into one part more than it holds delimiters: at least
/// one, and two or more exactly where it holds a delimiter.
pub proof fn lemma_split_groups_len(text: Seq<char>)
    ensures
        split_groups(text).len() >= 1,
        split_groups(text).len() >= 2 <==> has_delimiter(text),
{
    lemma_field_len(text);
    let f = field_len(text) as int;
    if f < text.len() {
        assert(text[f] == DELIMITER);
        reveal_with_fuel(split_groups, 2);
    }
}

/// Every part of a text is a group exactly where the text is made of
/// groups with one delimiter between any two.
pub proof fn lemma_all_groups_shape(text: Seq<char>)
    ensures
        all_groups(split_groups(text)) <==> is_delimited_groups(text),
    decreases text.len(),
{
    lemma_field_len(text);
    let f = field_len(text) as int;
    let parts = split_groups(text);
    if f >= text.len() {
        assert(parts =~= seq![text]);
        assert(parts[0] == text);
        if is_delimited_groups(text) {
            assert(is_group(text));
        }
    } else {
        let head = text.take(f);
        let after = text.skip(f + 1);
        let later = split_groups(after);
        assert(parts == seq![head] + later);
        lemma_all_groups_shape(after);
        if all_groups(parts) {
            assert(is_group(parts[0]));
            assert(head[0] == text[0]);
            assert forall|i: int| 0 <= i < later.len() implies is_group(#[trigger] later[i]) by {
                assert(later[i] == parts[i + 1]);
            }
            assert(is_delimited_groups(after));
            assert(after[0] == text[f + 1]);
            assert forall|i: int| 0 <= i < text.len() implies is_digit(#[trigger] text[i])
                || text[i] == DELIMITER by {
                if i < f {
                    assert(text[i] == head[i]);
                } else if i > f {
                    assert(text[i] == after[i - f - 1]);
                }
            }
            assert forall|i: int| 0 <= i < text.len() && #[trigger] text[i]
                == DELIMITER implies i + 1 < text.len() && is_digit(text[i + 1]) by {
                if i > f {
                    assert(text[i] == after[i - f - 1]);
                    assert(text[i + 1] == after[i - f]);
                }
            }
        }
        if is_delimited_groups(text) {
            assert(is_group(head)) by {
                assert forall|i: int| 0 <= i < head.len() implies is_digit(#[trigger] head[i]) by {
                    assert(head[i] == text[i]);
                }
            }
            assert(text[f] == DELIMITER);
            assert(after[0] == text[f + 1]);
            assert forall|i: int| 0 <= i < after.len() implies is_digit(#[trigger] after[i])
                || after[i] == DELIMITER by {
                assert(after[i] == text[i + f + 1]);
            }
            assert forall|i: int| 0 <= i < after.len() && #[trigger] after[i]
                == DELIMITER implies i + 1 < after.len() && is_digit(after[i + 1]) by {
                assert(after[i] == text[i + f + 1]);
                assert(after[i + 1] == text[i + f + 2]);
            }
            assert(is_delimited_groups(after));
            assert forall|i: int| 0 <= i < parts.len() implies is_group(#[trigger] parts[i]) by {
                if i > 0 {
                    assert(parts[i] == later[i - 1]);
                }
            }
        }
    }
}

/// A text has the format of a reference exactly where it is made of
/// groups with one delimiter between any two, and holds a delimiter.
pub proof fn lemma_reference_text_shape(text: Seq<char>)
    ensures
        is_reference_text(text) <==> is_delimited_groups(text) && has_delimiter(text),
{
    lemma_split_groups_len(text);
    lemma_all_groups_shape(text);
}

/// `parts` written one after the other with a delimiter between any two.
pub open spec fn join_groups(parts: Seq<Seq<char>>) -> Seq<char>
    decreases parts.len(),
{
    if parts.len() == 0 {
        Seq::empty()
    } else if parts.len() == 1 {
        parts[0]
    } else {
        parts[0] + seq![DELIMITER] + join_groups(parts.drop_first())
    }
}

/// Whether no delimiter stands in `part`.
pub open spec fn no_delimiter(part: Seq<char>) -> bool {
    forall|i: int| 0 <= i < part.len() ==> #[trigger] part[i] != DELIMITER
}

/// No delimiter stands in a group.
pub proof fn lemma_group_no_delimiter(part: Seq<char>)
    requires
        is_group(part),
    ensures
        no_delimiter(part),
{
}

/// Cutting undoes joining: parts that hold no delimiter, joined by
/// delimiters, are cut into the same parts again.
pub proof fn lemma_split_join(parts: Seq<Seq<char>>)
    requires
        parts.len() >= 1,
        forall|i: int| 0 <= i < parts.len() ==> no_delimiter(#[trigger] parts[i]),
    ensures
        split_groups(join_groups(parts)) == parts,
    decreases parts.len(),
{
    let text = join_groups(parts);
    let head = parts[0];
    assert(no_delimiter(head));
    if parts.len() == 1 {
        lemma_field_len_unique(text, text.len() as int);
        assert(split_groups(text) =~= parts);
    } else {
        let later = parts.drop_first();
        let after = join_groups(later);
        assert(text == head + seq![DELIMITER] + after);
        let n = head.len() as int;
        assert forall|i: int| 0 <= i < n implies #[trigger] text[i] != DELIMITER by {
            assert(text[i] == head[i]);
        }
        assert(text[n] == DELIMITER);
        lemma_field_len_unique(text, n);
        assert(text.take(n) =~= head);
        assert(text.skip(n + 1) =~= after);
        assert forall|i: int| 0 <= i < later.len() implies no_delimiter(#[trigger] later[i]) by {
            assert(later[i] == parts[i + 1]);
        }
        lemma_split_join(later);
        assert(split_groups(text) =~= parts);
    }
}

} // verus!
