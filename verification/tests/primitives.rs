use reference_parser::input::split_first_ascii;
use reference_parser::primitives::{Dash, Empty, EncodedGroup};
use reference_parser::{dash, empty, encoded_group, Parser};

#[test]
fn dash_dash_aaaa() {
    assert_eq!(dash("-AAAA"), Ok(("AAAA", ())));
}

#[test]
fn dash_abcde_dash() {
    assert_eq!(dash("ABCDE-"), Err("ABCDE-"));
}

#[test]
fn dash_on_empty_input() {
    assert_eq!(dash(""), Err(""));
}

#[test]
fn dash_alone() {
    assert_eq!(dash("-"), Ok(("", ())));
}

#[test]
fn dash_consumes_one_delimiter_only() {
    assert_eq!(dash("--A"), Ok(("-A", ())));
}

#[test]
fn dash_on_other_dashes() {
    assert_eq!(dash("–A"), Err("–A"));
    assert_eq!(dash("_A"), Err("_A"));
}

#[test]
fn dash_before_a_wide_character() {
    assert_eq!(dash("-é"), Ok(("é", ())));
}

#[test]
fn emtpy() {
    assert_eq!(empty(""), Ok(("", ())));
}

#[test]
fn non_empty() {
    assert_eq!(empty("not empty"), Err("not empty"));
}

#[test]
fn empty_on_one_wide_character() {
    assert_eq!(empty("é"), Err("é"));
}

#[test]
fn encoded_group_aaaa() {
    assert_eq!(encoded_group("AAAA"), Ok(("", 0)));
}

#[test]
fn encoded_group_aaaa_dash_aaaab() {
    assert_eq!(encoded_group("AAAA-AAAAB"), Ok(("-AAAAB", 0)));
}

#[test]
fn encoded_group_llaa() {
    assert_eq!(encoded_group("LLAA"), Err("LLAA"));
}

#[test]
fn encoded_group_abll() {
    assert_eq!(encoded_group("ABLL"), Ok(("LL", 1)));
}

#[test]
fn encoded_group_wwwwwwww_dash_123() {
    assert_eq!(encoded_group("WWWWWWWW-123"), Ok(("-123", 4_294_967_295)));
}

#[test]
fn encoded_group_aaaaaacr() {
    assert_eq!(encoded_group("AAAAAACR"), Ok(("", 42)));
}

#[test]
fn encoded_group_bijdrage_dash_nummer_dash_1() {
    assert_eq!(encoded_group("BIJDRAGE-NUMMER-1"), Ok(("-NUMMER-1", 412_328_036)));
}

#[test]
fn encoded_group_on_empty_input() {
    assert_eq!(encoded_group(""), Err(""));
}

#[test]
fn encoded_group_on_delimiter() {
    assert_eq!(encoded_group("-AA"), Err("-AA"));
}

#[test]
fn encoded_group_single_digits() {
    assert_eq!(encoded_group("A"), Ok(("", 0)));
    assert_eq!(encoded_group("J"), Ok(("", 9)));
    assert_eq!(encoded_group("R"), Ok(("", 10)));
    assert_eq!(encoded_group("W"), Ok(("", 15)));
}

#[test]
fn encoded_group_weighs_digits_by_position() {
    // 1 * 16^2 + 2 * 16 + 3
    assert_eq!(encoded_group("BCD"), Ok(("", 291)));
    // 15 * 16^3 + 10 * 16^2 + 9 * 16 + 0
    assert_eq!(encoded_group("WRJA"), Ok(("", 64_144)));
    assert_eq!(encoded_group("BA"), Ok(("", 16)));
    assert_eq!(encoded_group("BAA"), Ok(("", 256)));
}

#[test]
fn encoded_group_leading_zero_digits() {
    assert_eq!(encoded_group("AAAAAAAAAAAAB"), Ok(("", 1)));
}

#[test]
fn encoded_group_largest_of_eight_characters() {
    assert_eq!(encoded_group("WWWWWWWW"), Ok(("", u32::MAX)));
    assert_eq!(encoded_group("BAAAAAAA"), Ok(("", 0x1000_0000)));
}

#[test]
fn encoded_group_of_nine_characters_wraps_around() {
    // 16^8 is 2^32
    assert_eq!(encoded_group("BAAAAAAAA"), Ok(("", 0)));
    assert_eq!(encoded_group("BAAAAAAAB"), Ok(("", 1)));
    assert_eq!(encoded_group("WWWWWWWWW"), Ok(("", u32::MAX)));
    assert_eq!(encoded_group("CBIJDRAGE-"), Ok(("-", 412_328_036)));
}

#[test]
fn encoded_group_long_run_keeps_last_eight_digits() {
    let run = "W".repeat(1000) + "AAAAAACR";
    assert_eq!(encoded_group(&run), Ok(("", 42)));
}

#[test]
fn encoded_group_stops_at_lowercase() {
    assert_eq!(encoded_group("ABab"), Ok(("ab", 1)));
}

#[test]
fn encoded_group_stops_at_wide_character() {
    assert_eq!(encoded_group("ABéAB"), Ok(("éAB", 1)));
    assert_eq!(encoded_group("éAB"), Err("éAB"));
}

#[test]
fn encoded_group_remaining_input_is_part_of_the_input() {
    let input = "RSTU-rest";
    let (rest, value) = encoded_group(input).unwrap();
    assert_eq!(value, 0xABCD);
    assert_eq!(rest.as_ptr(), input[4..].as_ptr());
    assert_eq!(rest.len(), 5);
}

#[test]
fn matcher_values_agree_with_the_functions() {
    for input in ["", "-", "-AA", "AA-", "AAC-123", "é", "K"] {
        assert_eq!(Dash.parse(input), dash(input));
        assert_eq!(Empty.parse(input), empty(input));
        assert_eq!(EncodedGroup.parse(input), encoded_group(input));
    }
}

#[test]
fn split_first_ascii_takes_one_character() {
    assert_eq!(split_first_ascii("AB"), Some(('A', "B")));
    assert_eq!(split_first_ascii("-"), Some(('-', "")));
    assert_eq!(split_first_ascii("\u{7f}é"), Some(('\u{7f}', "é")));
}

#[test]
fn split_first_ascii_refuses_empty_and_wide() {
    assert_eq!(split_first_ascii(""), None);
    assert_eq!(split_first_ascii("éA"), None);
    assert_eq!(split_first_ascii("\u{80}"), None);
}
