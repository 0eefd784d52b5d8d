use sensor_link::command::{parse_command, parse_measure_args, Command, Field, ParseError};
use sensor_link::decimal::{digit_of, parse_u64, push_decimal};
use sensor_link::text::{find, split_text};

fn not_a_number(field: Field, raw_text: &str) -> ParseError {
    ParseError::NotANumber { field, raw_text: raw_text.to_string() }
}

#[test]
fn measure_with_both_fields_parses() {
    assert_eq!(parse_command("measure:5,100"), Ok(Command::Measure { amount: 5, delay_ms: 100 }));
}

#[test]
fn measure_with_zero_amount_parses() {
    assert_eq!(parse_command("measure:0,0"), Ok(Command::Measure { amount: 0, delay_ms: 0 }));
}

#[test]
fn measure_with_one_field_has_wrong_arg_count() {
    assert_eq!(parse_command("measure:5"), Err(ParseError::WrongArgCount { got: 1 }));
}

#[test]
fn measure_with_empty_args_has_wrong_arg_count() {
    assert_eq!(parse_command("measure:"), Err(ParseError::WrongArgCount { got: 1 }));
}

#[test]
fn measure_with_three_fields_has_wrong_arg_count() {
    assert_eq!(parse_command("measure:1,2,3"), Err(ParseError::WrongArgCount { got: 3 }));
}

#[test]
fn measure_without_colon_misses_args() {
    assert_eq!(parse_command("measure"), Err(ParseError::MissingArgs));
}

#[test]
fn amount_that_is_no_number_names_the_first_field() {
    assert_eq!(parse_command("measure:abc,10"), Err(not_a_number(Field::Amount, "abc")));
}

#[test]
fn delay_that_is_no_number_names_the_second_field() {
    assert_eq!(parse_command("measure:10,abc"), Err(not_a_number(Field::Delay, "abc")));
}

#[test]
fn amount_is_read_before_delay() {
    assert_eq!(parse_command("measure:x,y"), Err(not_a_number(Field::Amount, "x")));
}

#[test]
fn empty_field_is_no_number() {
    assert_eq!(parse_command("measure:,7"), Err(not_a_number(Field::Amount, "")));
    assert_eq!(parse_command("measure:7,"), Err(not_a_number(Field::Delay, "")));
}

#[test]
fn white_space_is_not_trimmed() {
    assert_eq!(parse_command("measure: 5,1"), Err(not_a_number(Field::Amount, " 5")));
    assert_eq!(parse_command("measure:5,1 "), Err(not_a_number(Field::Delay, "1 ")));
}

#[test]
fn negative_amount_is_no_number() {
    assert_eq!(parse_command("measure:-1,1"), Err(not_a_number(Field::Amount, "-1")));
}

#[test]
fn other_verb_is_unknown() {
    assert_eq!(parse_command("foo:bar"), Ok(Command::Unknown { verb: "foo".to_string() }));
}

#[test]
fn verb_without_colon_is_unknown() {
    assert_eq!(parse_command("status"), Ok(Command::Unknown { verb: "status".to_string() }));
}

#[test]
fn verb_is_case_sensitive() {
    assert_eq!(parse_command("Measure:1,2"), Ok(Command::Unknown { verb: "Measure".to_string() }));
}

#[test]
fn empty_verb_is_unknown() {
    assert_eq!(parse_command(":1,2"), Ok(Command::Unknown { verb: String::new() }));
}

#[test]
fn verb_outside_ascii_is_unknown() {
    assert_eq!(
        parse_command("h\u{e9}llo:1,2"),
        Ok(Command::Unknown { verb: "h\u{e9}llo".to_string() })
    );
}

#[test]
fn empty_message_is_invalid() {
    assert_eq!(parse_command(""), Err(ParseError::InvalidCommandString));
}

#[test]
fn second_colon_belongs_to_the_arguments() {
    assert_eq!(parse_command("measure:1,2:3"), Err(not_a_number(Field::Delay, "2:3")));
    assert_eq!(parse_command("measure::1,2"), Err(not_a_number(Field::Amount, ":1")));
    assert_eq!(parse_command("measure:1,2:"), Err(not_a_number(Field::Delay, "2:")));
}

#[test]
fn arguments_are_everything_after_the_first_colon() {
    assert_eq!(parse_command("measure:1:2"), Err(ParseError::WrongArgCount { got: 1 }));
    assert_eq!(parse_command("measure:1,2:extra,3"), Err(ParseError::WrongArgCount { got: 3 }));
    assert_eq!(parse_command("measure:measure:1,2"), Err(not_a_number(Field::Amount, "measure:1")));
}

#[test]
fn unknown_verb_ends_at_the_first_colon() {
    assert_eq!(parse_command("foo:bar:baz"), Ok(Command::Unknown { verb: "foo".to_string() }));
    assert_eq!(parse_command("::"), Ok(Command::Unknown { verb: String::new() }));
    assert_eq!(
        parse_command("measure 1,2:3"),
        Ok(Command::Unknown { verb: "measure 1,2".to_string() })
    );
}

#[test]
fn plus_sign_and_leading_zeros_are_read() {
    assert_eq!(parse_command("measure:+5,007"), Ok(Command::Measure { amount: 5, delay_ms: 7 }));
}

#[test]
fn largest_amount_fits_and_the_next_does_not() {
    assert_eq!(
        parse_command("measure:18446744073709551615,1"),
        Ok(Command::Measure { amount: u64::MAX, delay_ms: 1 })
    );
    assert_eq!(
        parse_command("measure:18446744073709551616,1"),
        Err(not_a_number(Field::Amount, "18446744073709551616"))
    );
}

#[test]
fn measure_args_alone() {
    assert_eq!(parse_measure_args("3,250"), Ok((3, 250)));
    assert_eq!(parse_measure_args(""), Err(ParseError::WrongArgCount { got: 1 }));
    assert_eq!(parse_measure_args(",,"), Err(ParseError::WrongArgCount { got: 3 }));
    assert_eq!(parse_measure_args("3;250,1"), Err(not_a_number(Field::Amount, "3;250")));
}

#[test]
fn numerals() {
    assert_eq!(parse_u64("0"), Some(0));
    assert_eq!(parse_u64("42"), Some(42));
    assert_eq!(parse_u64("+42"), Some(42));
    assert_eq!(parse_u64("000"), Some(0));
    assert_eq!(parse_u64("18446744073709551615"), Some(u64::MAX));
    assert_eq!(parse_u64("18446744073709551616"), None);
    assert_eq!(parse_u64("99999999999999999999999"), None);
    assert_eq!(parse_u64(""), None);
    assert_eq!(parse_u64("+"), None);
    assert_eq!(parse_u64("++1"), None);
    assert_eq!(parse_u64("-1"), None);
    assert_eq!(parse_u64("1_000"), None);
    assert_eq!(parse_u64("12a"), None);
    assert_eq!(parse_u64("\u{663}"), None);
}

#[test]
fn numerals_agree_with_std() {
    let cases = vec!["7", "+7", "07", "", "+", "-7", "7 ", " 7", "1e3", "18446744073709551615"];
    for case in cases {
        assert_eq!(parse_u64(case), case.parse::<u64>().ok());
    }
}

#[test]
fn digits() {
    assert_eq!(digit_of('0'), Some(0));
    assert_eq!(digit_of('9'), Some(9));
    assert_eq!(digit_of('/'), None);
    assert_eq!(digit_of(':'), None);
    assert_eq!(digit_of('\u{663}'), None);
}

#[test]
fn decimal_writing() {
    let mut out = String::new();
    push_decimal(&mut out, 0);
    assert_eq!(out, "0");
    push_decimal(&mut out, 1907);
    assert_eq!(out, "01907");
    let mut big = String::new();
    push_decimal(&mut big, u128::MAX);
    assert_eq!(big, "340282366920938463463374607431768211455");
}

#[test]
fn written_numbers_read_back() {
    let cases: Vec<u64> = vec![0, 1, 9, 10, 99, 100, 12345, u64::MAX];
    for n in cases {
        let mut out = String::new();
        push_decimal(&mut out, n as u128);
        assert_eq!(parse_u64(&out), Some(n));
    }
}

#[test]
fn splitting() {
    assert_eq!(split_text("a,b", ','), vec!["a", "b"]);
    assert_eq!(split_text("", ','), vec![""]);
    assert_eq!(split_text(",", ','), vec!["", ""]);
    assert_eq!(split_text("a,,b,", ','), vec!["a", "", "b", ""]);
    assert_eq!(split_text("\u{e9}:\u{fc}", ':'), vec!["\u{e9}", "\u{fc}"]);
}

#[test]
fn splitting_agrees_with_std() {
    let cases = vec!["", ":", "a:b:c", "::", "measure:1,2", "no colon"];
    for case in cases {
        let expected: Vec<&str> = case.split(':').collect();
        assert_eq!(split_text(case, ':'), expected);
    }
}

#[test]
fn finding() {
    assert_eq!(find("measure:1", ':'), 7);
    assert_eq!(find("measure:1:2", ':'), 7);
    assert_eq!(find("measure", ':'), 7);
    assert_eq!(find(":", ':'), 0);
    assert_eq!(find("", ':'), 0);
    assert_eq!(find("\u{e9}\u{e9}:", ':'), 2);
}
