use reference_parser::combinators::{TakeLeft, TakeRight, Transform};
use reference_parser::primitives::{Dash, Empty, EncodedGroup};
use reference_parser::{left, one_or_more, pair, right, Parser};

#[test]
fn pair_dash_dash() {
    assert_eq!(pair(Dash, Dash).parse("--"), Ok(("", ((), ()))));
}

#[test]
fn pair_aaaa_dash_aaab_dash_123() {
    assert_eq!(
        pair(EncodedGroup, pair(Dash, pair(EncodedGroup, Dash))).parse("AAAA-AAAB-123"),
        Ok(("123", (0, ((), (1, ())))))
    );
}

#[test]
fn pair_fails_where_the_first_fails() {
    assert_eq!(pair(Dash, EncodedGroup).parse("AA-AA"), Err("AA-AA"));
}

#[test]
fn pair_fails_where_the_second_fails() {
    assert_eq!(pair(EncodedGroup, Dash).parse("AAB"), Err(""));
    assert_eq!(pair(EncodedGroup, Dash).parse("AABK-"), Err("K-"));
}

#[test]
fn map_aaac_dash_ab() {
    assert_eq!(
        pair(EncodedGroup, reference_parser::combinators::map(pair(Dash, EncodedGroup), TakeRight)).parse("AAAC-AB"),
        Ok(("", (2, 1)))
    );
}

#[test]
fn map_aaal_dash_ab() {
    assert_eq!(
        pair(EncodedGroup, reference_parser::combinators::map(pair(Dash, EncodedGroup), TakeRight)).parse("AAAL-AB"),
        Err("L-AB")
    );
}

#[test]
fn map_keeps_the_remaining_input() {
    assert_eq!(reference_parser::combinators::map(pair(EncodedGroup, Dash), TakeLeft).parse("BA-rest"), Ok(("rest", 16)));
}

#[test]
fn map_left_aac_dash_123() {
    assert_eq!(left(EncodedGroup, Dash).parse("AAC-123"), Ok(("123", 2)));
}

#[test]
fn map_right_aac_dash() {
    assert_eq!(right(EncodedGroup, Dash).parse("AAC-123"), Ok(("123", ())));
}

#[test]
fn left_and_right_need_both_sides() {
    assert_eq!(left(EncodedGroup, Dash).parse("AAC"), Err(""));
    assert_eq!(right(EncodedGroup, Dash).parse("AAC"), Err(""));
    assert_eq!(left(EncodedGroup, Dash).parse("-AAC"), Err("-AAC"));
    assert_eq!(right(Dash, EncodedGroup).parse("-K"), Err("K"));
}

#[test]
fn right_keeps_the_second_value() {
    assert_eq!(right(Dash, EncodedGroup).parse("-AC-"), Ok(("-", 2)));
}

#[test]
fn one_or_more_dash_dash_dash() {
    assert_eq!(one_or_more(Dash).parse("---"), Ok(("", vec![(), (), ()])));
}

#[test]
fn one_or_more_no_matches() {
    assert_eq!(one_or_more(Dash).parse("AAA-"), Err("AAA-"));
}

#[test]
fn one_or_more_on_empty_input() {
    assert_eq!(one_or_more(Dash).parse(""), Err(""));
}

#[test]
fn one_or_more_single_match() {
    assert_eq!(one_or_more(Dash).parse("-A"), Ok(("A", vec![()])));
}

#[test]
fn one_or_more_stops_before_the_failing_attempt() {
    assert_eq!(
        one_or_more(right(Dash, EncodedGroup)).parse("-B-C-K"),
        Ok(("-K", vec![1, 2]))
    );
    assert_eq!(one_or_more(right(Dash, EncodedGroup)).parse("-B-C-"), Ok(("-", vec![1, 2])));
}

#[test]
fn one_or_more_collects_in_order() {
    assert_eq!(
        one_or_more(right(Dash, EncodedGroup)).parse("-J-R-W-A-B"),
        Ok(("", vec![9, 10, 15, 0, 1]))
    );
}

#[test]
fn one_or_more_of_groups_takes_one_maximal_run() {
    assert_eq!(one_or_more(EncodedGroup).parse("ABCD-"), Ok(("-", vec![0x0123])));
}

#[test]
fn one_or_more_many_matches() {
    let input = "-".repeat(10_000);
    let (rest, values) = one_or_more(Dash).parse(&input).unwrap();
    assert_eq!(rest, "");
    assert_eq!(values.len(), 10_000);
}

#[test]
fn end_of_input_after_a_sequence() {
    assert_eq!(left(EncodedGroup, Empty).parse("AB"), Ok(("", 1)));
    assert_eq!(left(EncodedGroup, Empty).parse("AB-"), Err("-"));
}

#[test]
fn projections_pick_their_side() {
    assert_eq!(TakeLeft.apply((7u32, vec![8u32])), 7);
    assert_eq!(TakeRight.apply((7u32, vec![8u32])), vec![8]);
    assert_eq!(TakeRight.apply(((), 3u32)), 3);
}
