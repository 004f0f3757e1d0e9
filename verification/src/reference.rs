//! Decoding a reference text into its record.
use crate::alphabet::{base16, group_modulus, group_value, is_digit, lemma_group_value_exact};
use crate::grammar::{
    all_groups, create_reference_structure_parser, has_delimiter, is_delimited_groups,
    join_groups, lemma_group_no_delimiter, lemma_reference_structure,
    lemma_reference_text_shape, lemma_split_join, no_delimiter, spec_reference_structure,
};
use crate::primitives::DELIMITER;
use crate::parser::Parser;
use vstd::prelude::*;

verus! {

/// A decoded reference: its type and up to four identifiers, filled by
/// position from the groups after the first.
#[derive(Debug, PartialEq)]
pub struct Reference {
    pub reference_type: u32,
    pub company_space_id: Option<u32>,
    pub aggregate_root_id: Option<u32>,
    pub revision: Option<u32>,
    pub object_id: Option<u32>,
}

/// The value at `index` of `ids`, where there is one.
pub open spec fn spec_id_at(ids: Seq<u32>, index: int) -> Option<u32> {
    if 0 <= index < ids.len() {
        Some(ids[index])
    } else {
        None
    }
}

/// The record made of the first group's value and the values of the groups
/// after it: these fill the four identifiers in order, a missing one stays
/// unset and a fifth or later one is left out.
pub open spec fn reference_of(reference_type: u32, ids: Seq<u32>) -> Reference {
    Reference {
        reference_type,
        company_space_id: spec_id_at(ids, 0),
        aggregate_root_id: spec_id_at(ids, 1),
        revision: spec_id_at(ids, 2),
        object_id: spec_id_at(ids, 3),
    }
}

/// The record that `text` decodes to; none where `text` does not have the
/// format of a reference.
pub open spec fn spec_parse_reference(text: Seq<char>) -> Option<Reference> {
    match spec_reference_structure(text) {
        Some((reference_type, ids)) => Some(reference_of(reference_type, ids)),
        None => None,
    }
}

/// The value at `index` of `ids`, where there is one.
pub fn id_at(ids: &Vec<u32>, index: usize) -> (r: Option<u32>)
    ensures
        r == spec_id_at(ids@, index as int),
{
    if index < ids.len() {
        Some(ids[index])
    } else {
        None
    }
}

/// Decodes `input`. The result is present exactly where the whole of
/// `input` has the format of a reference; nothing of a text that has it
/// only in part is returned.
pub fn parse_reference(input: &str) -> (r: Option<Reference>)
    ensures
        r == spec_parse_reference(input@),
{
    let reference_parser = create_reference_structure_parser();
    proof {
        lemma_reference_structure(input@);
    }
    match reference_parser.parse(input) {
        Ok((_, (reference_type, ids))) => {
            assert(ids.deep_view() =~= ids@);
            Some(
                Reference {
                    reference_type,
                    company_space_id: id_at(&ids, 0),
                    aggregate_root_id: id_at(&ids, 1),
                    revision: id_at(&ids, 2),
                    object_id: id_at(&ids, 3),
                },
            )
        },
        Err(_) => None,
    }
}

/// The value of the group at `index` of `groups`, where there is one.
pub open spec fn spec_group_at(groups: Seq<Seq<char>>, index: int) -> Option<u32> {
    if 0 <= index < groups.len() {
        Some(group_value(groups[index]))
    } else {
        None
    }
}

/// Two or more groups joined by delimiters decode, and to this record: the
/// type is the value of the first group, the four identifiers are the
/// values of the second to fifth group as far as there are such groups,
/// and a sixth or later group changes nothing. The value of a group is the
/// number it writes in base 16, modulo 2^32: for a group of at most eight
/// characters that is the number itself.
pub proof fn lemma_joined_groups_decode(groups: Seq<Seq<char>>)
    requires
        groups.len() >= 2,
        all_groups(groups),
    ensures
        forall|i: int|
            0 <= i < groups.len() && groups[i].len() <= 8 ==> #[trigger] spec_group_at(groups, i)
                == Some(base16(groups[i]) as u32),
        spec_parse_reference(join_groups(groups)) == Some(
            Reference {
                reference_type: (base16(groups[0]) % group_modulus()) as u32,
                company_space_id: spec_group_at(groups, 1),
                aggregate_root_id: spec_group_at(groups, 2),
                revision: spec_group_at(groups, 3),
                object_id: spec_group_at(groups, 4),
            },
        ),
{
    assert forall|i: int| 0 <= i < groups.len() implies no_delimiter(#[trigger] groups[i]) by {
        lemma_group_no_delimiter(groups[i]);
    }
    lemma_split_join(groups);
    assert forall|i: int| 0 <= i < groups.len() && groups[i].len() <= 8 implies #[trigger]
        spec_group_at(groups, i) == Some(base16(groups[i]) as u32) by {
        lemma_group_value_exact(groups[i]);
    }
}

/// A text decodes exactly where it is made of groups with one delimiter
/// between any two, and holds a delimiter.
pub proof fn lemma_decodes_iff_shape(text: Seq<char>)
    ensures
        spec_parse_reference(text) is Some <==> is_delimited_groups(text) && has_delimiter(text),
{
    lemma_reference_text_shape(text);
}

/// A text without any delimiter does not decode.
pub proof fn lemma_no_delimiter_fails(text: Seq<char>)
    requires
        no_delimiter(text),
    ensures
        spec_parse_reference(text) is None,
{
    lemma_reference_text_shape(text);
}

/// A text in which some delimiter is not followed by a character of the
/// alphabet does not decode; so one that ends with a delimiter does not.
pub proof fn lemma_dangling_delimiter_fails(text: Seq<char>, at: int)
    requires
        0 <= at < text.len(),
        text[at] == DELIMITER,
        at + 1 == text.len() || !is_digit(text[at + 1]),
    ensures
        spec_parse_reference(text) is None,
{
    lemma_reference_text_shape(text);
}

/// A text that holds a character which is neither of the alphabet nor a
/// delimiter does not decode, wherever that character stands.
pub proof fn lemma_foreign_character_fails(text: Seq<char>, at: int)
    requires
        0 <= at < text.len(),
        !is_digit(text[at]),
        text[at] != DELIMITER,
    ensures
        spec_parse_reference(text) is None,
{
    lemma_reference_text_shape(text);
}

/// Decoding depends on the text alone: what `parse_reference` returns for
/// a text is what it returns for that text at any other call.
pub proof fn lemma_decoding_is_a_function(
    text: Seq<char>,
    first: Option<Reference>,
    second: Option<Reference>,
)
    requires
        first == spec_parse_reference(text),
        second == spec_parse_reference(text),
    ensures
        first == second,
{
}

} // verus!
