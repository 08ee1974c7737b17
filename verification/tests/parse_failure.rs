use lalrpop_util::ParseError;
use parser_wasm::diagnostics::{Diagnostic, Location, ReportCode};
use parser_wasm::parser_logic::{
    parse_error_report, parse_failure_report, produce_generic_report, ParseFailure,
};

fn expected(message: &str, file_id: usize, start: usize, end: usize) -> Diagnostic {
    Diagnostic::IllegalExpression {
        message: message.to_string(),
        location: Location { file_id, start, end },
    }
}

#[test]
fn generic_report_points_at_the_token() {
    let report = produce_generic_report("bad".to_string(), (3, 9), 2);
    assert_eq!(report, expected("bad", 2, 3, 9));
    assert_eq!(report.code(), ReportCode::IllegalExpression);
    assert!(!report.is_warning());
}

#[test]
fn invalid_token_is_reported_at_its_place() {
    let report = parse_failure_report(ParseFailure::InvalidToken { location: 17 }, "m".to_string(), 1);
    assert_eq!(report, expected("m", 1, 17, 17));
}

#[test]
fn unrecognized_and_extra_tokens_are_reported_at_their_span() {
    let report =
        parse_failure_report(ParseFailure::UnrecognizedToken { start: 4, end: 8 }, "m".to_string(), 1);
    assert_eq!(report, expected("m", 1, 4, 8));
    let report = parse_failure_report(ParseFailure::ExtraToken { start: 5, end: 6 }, "m".to_string(), 0);
    assert_eq!(report, expected("m", 0, 5, 6));
}

#[test]
fn other_failures_are_reported_at_the_start_of_the_file() {
    let report = parse_failure_report(ParseFailure::UnrecognizedEof { location: 40 }, "m".to_string(), 3);
    assert_eq!(report, expected("m", 3, 0, 0));
    let report = parse_failure_report(ParseFailure::User, "m".to_string(), 3);
    assert_eq!(report, expected("m", 3, 0, 0));
}

#[test]
fn parser_errors_are_read_variant_by_variant() {
    let invalid: ParseError<usize, &str, &str> = ParseError::InvalidToken { location: 12 };
    assert_eq!(parse_error_report(&invalid, "a".to_string(), 5), expected("a", 5, 12, 12));

    let unrecognized: ParseError<usize, &str, &str> =
        ParseError::UnrecognizedToken { token: (3, "tok", 6), expected: vec!["x".to_string()] };
    assert_eq!(parse_error_report(&unrecognized, "b".to_string(), 5), expected("b", 5, 3, 6));

    let extra: ParseError<usize, &str, &str> = ParseError::ExtraToken { token: (7, "tok", 9) };
    assert_eq!(parse_error_report(&extra, "c".to_string(), 5), expected("c", 5, 7, 9));

    let eof: ParseError<usize, &str, &str> =
        ParseError::UnrecognizedEof { location: 30, expected: vec![] };
    assert_eq!(parse_error_report(&eof, "d".to_string(), 5), expected("d", 5, 0, 0));

    let user: ParseError<usize, &str, &str> = ParseError::User { error: "custom" };
    assert_eq!(parse_error_report(&user, "e".to_string(), 5), expected("e", 5, 0, 0));
}
