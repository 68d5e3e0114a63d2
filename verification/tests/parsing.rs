use settlement::parse::parse_contributions;
use settlement::types::ParseErrorKind;
use settlement::types::AMOUNT_LIMIT;

#[test]
fn empty_input_is_valid_and_empty() {
    let r = parse_contributions("").unwrap();
    assert!(r.is_empty());
}

#[test]
fn newlines_only_is_valid_and_empty() {
    let r = parse_contributions("\n\n\n").unwrap();
    assert!(r.is_empty());
}

#[test]
fn empty_lines_are_skipped() {
    let r = parse_contributions("A 10\n\nB 20\n").unwrap();
    assert_eq!(r.len(), 2);
    assert_eq!(r[0].name, "A");
    assert_eq!(r[0].amount, 1000);
    assert_eq!(r[1].name, "B");
    assert_eq!(r[1].amount, 2000);
}

#[test]
fn whitespace_only_line_is_incomplete() {
    let e = parse_contributions("A 10\n   \nB 20").unwrap_err();
    assert_eq!(e.kind, ParseErrorKind::IncompleteLine);
    assert_eq!(e.line_index, 1);
}

#[test]
fn amounts_are_minor_units() {
    let r = parse_contributions("A 30").unwrap();
    assert_eq!(r[0].amount, 3000);
}

#[test]
fn fractional_amounts() {
    let r = parse_contributions("A 1.5\nB 2.25\nC -0.75\nD +3").unwrap();
    assert_eq!(r[0].amount, 150);
    assert_eq!(r[1].amount, 225);
    assert_eq!(r[2].amount, -75);
    assert_eq!(r[3].amount, 300);
}

#[test]
fn incomplete_line_one_token() {
    let e = parse_contributions("A 10\nB").unwrap_err();
    assert_eq!(e.kind, ParseErrorKind::IncompleteLine);
    assert_eq!(e.line_index, 1);
}

#[test]
fn incomplete_line_three_tokens() {
    let e = parse_contributions("A 10 20").unwrap_err();
    assert_eq!(e.kind, ParseErrorKind::IncompleteLine);
    assert_eq!(e.line_index, 0);
}

#[test]
fn not_a_number() {
    let e = parse_contributions("A ten").unwrap_err();
    assert_eq!(e.kind, ParseErrorKind::NotANumber);
    assert_eq!(e.line_index, 0);
}

#[test]
fn error_index_counts_blank_lines() {
    let e = parse_contributions("A 10\n\nB").unwrap_err();
    assert_eq!(e.kind, ParseErrorKind::IncompleteLine);
    assert_eq!(e.line_index, 2);
}

#[test]
fn malformed_numbers_are_rejected() {
    for tok in ["3.", ".5", "1.234", "1e3", "--2", "+", "-", "1.2.3", "12a"] {
        let input = format!("A {}", tok);
        let e = parse_contributions(&input).unwrap_err();
        assert_eq!(e.kind, ParseErrorKind::NotANumber, "token {:?}", tok);
        assert_eq!(e.line_index, 0);
    }
}

#[test]
fn amount_limit_is_inclusive() {
    let r = parse_contributions("A 1000000000000").unwrap();
    assert_eq!(r[0].amount, AMOUNT_LIMIT);
    let e = parse_contributions("A 1000000000000.01").unwrap_err();
    assert_eq!(e.kind, ParseErrorKind::NotANumber);
    let e = parse_contributions("A 1000000000001").unwrap_err();
    assert_eq!(e.kind, ParseErrorKind::NotANumber);
    let e = parse_contributions("A 99999999999999999999999999").unwrap_err();
    assert_eq!(e.kind, ParseErrorKind::NotANumber);
}

#[test]
fn carriage_returns_are_token_whitespace() {
    let r = parse_contributions("A 10\r\nB 20").unwrap();
    assert_eq!(r.len(), 2);
    assert_eq!(r[0].name, "A");
    assert_eq!(r[1].name, "B");
}

#[test]
fn tabs_separate_tokens() {
    let r = parse_contributions("A\t10").unwrap();
    assert_eq!(r[0].name, "A");
    assert_eq!(r[0].amount, 1000);
}

#[test]
fn parse_is_idempotent() {
    let text = "A 10\nB 2.5\n\nC -7";
    let first = parse_contributions(text).unwrap();
    let second = parse_contributions(text).unwrap();
    assert_eq!(first, second);
}

#[test]
fn names_may_hold_multibyte_characters() {
    let r = parse_contributions("José 10\nÆlfreð 0.50").unwrap();
    assert_eq!(r[0].name, "José");
    assert_eq!(r[0].amount, 1000);
    assert_eq!(r[1].name, "Ælfreð");
    assert_eq!(r[1].amount, 50);
}

#[test]
fn duplicate_names_stay_distinct() {
    let r = parse_contributions("A 10\nA 20").unwrap();
    assert_eq!(r.len(), 2);
    assert_eq!(r[0].name, "A");
    assert_eq!(r[1].name, "A");
    assert_eq!(r[0].amount, 1000);
    assert_eq!(r[1].amount, 2000);
}
