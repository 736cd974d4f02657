use sat_solver_core::cnf::OwnedCNF;
use sat_solver_core::parse_from_dimacs_str;
use sat_solver_core::solve;
use sat_solver_core::Outcome;
use sat_solver_core::ParseError;

fn parse_ok(text: &str) -> OwnedCNF {
    match parse_from_dimacs_str(text) {
        Ok(cnf) => cnf,
        Err(e) => panic!("expected a formula, got {:?}", e),
    }
}

fn parse_err(text: &str) -> ParseError {
    match parse_from_dimacs_str(text) {
        Ok(_) => panic!("expected a parse failure"),
        Err(e) => e,
    }
}

#[test]
fn single_positive_literal_is_satisfiable() {
    let cnf = parse_ok("p cnf 1 1\n1 0\n");
    assert_eq!(solve(cnf), Outcome::Satisfiable);
}

#[test]
fn contradictory_units_are_unsatisfiable() {
    let cnf = parse_ok("p cnf 1 2\n1 0\n-1 0\n");
    assert_eq!(solve(cnf), Outcome::Unsatisfiable);
}

#[test]
fn two_opposed_binary_clauses_are_satisfiable() {
    let cnf = parse_ok("p cnf 2 2\n1 2 0\n-1 -2 0\n");
    assert_eq!(solve(cnf), Outcome::Satisfiable);
}

#[test]
fn formula_with_zero_clauses_is_satisfiable() {
    let cnf = parse_ok("p cnf 3 0\n");
    assert_eq!(solve(cnf), Outcome::Satisfiable);
}

#[test]
fn dnf_format_is_rejected_naming_the_token() {
    let err = parse_err("p dnf 1 1\n1 0\n");
    assert_eq!(err, ParseError::UnsupportedFormat(b"dnf".to_vec()));
}

#[test]
fn clause_count_mismatch_reports_both_counts() {
    let err = parse_err("p cnf 1 2\n1 0\n");
    assert_eq!(err, ParseError::ClauseCountMismatch { declared: 2, found: 1 });
}

#[test]
fn empty_input_has_no_problem_line() {
    assert_eq!(parse_err(""), ParseError::MissingProblemLine);
}

#[test]
fn comment_only_input_has_no_problem_line() {
    assert_eq!(parse_err("c just a comment\n\n"), ParseError::MissingProblemLine);
}

#[test]
fn first_token_must_be_p() {
    assert_eq!(parse_err("q cnf 1 1\n1 0\n"), ParseError::MissingProblemLine);
}

#[test]
fn missing_format_token() {
    assert_eq!(parse_err("p\n"), ParseError::MissingFormat);
}

#[test]
fn missing_variable_count() {
    assert_eq!(parse_err("p cnf\n"), ParseError::MissingVariableCount);
}

#[test]
fn unparsable_variable_count() {
    assert_eq!(parse_err("p cnf x 1\n1 0\n"), ParseError::InvalidVariableCount);
}

#[test]
fn oversized_variable_count() {
    assert_eq!(parse_err("p cnf 3000000000 0\n"), ParseError::InvalidVariableCount);
}

#[test]
fn missing_clause_count() {
    assert_eq!(parse_err("p cnf 1\n"), ParseError::MissingClauseCount);
}

#[test]
fn unparsable_clause_count() {
    assert_eq!(parse_err("p cnf 1 y\n"), ParseError::InvalidClauseCount);
}

#[test]
fn oversized_clause_count() {
    assert_eq!(
        parse_err("p cnf 1 99999999999999999999999999\n1 0\n"),
        ParseError::InvalidClauseCount
    );
}

#[test]
fn extra_problem_line_token() {
    assert_eq!(parse_err("p cnf 1 1 7\n1 0\n"), ParseError::ExtraProblemToken);
}

#[test]
fn unparsable_literal() {
    assert_eq!(parse_err("p cnf 1 1\nx 0\n"), ParseError::InvalidLiteral);
}

#[test]
fn oversized_literal() {
    assert_eq!(parse_err("p cnf 1 1\n9999999999 0\n"), ParseError::InvalidLiteral);
}

#[test]
fn literal_beyond_declared_variables() {
    assert_eq!(parse_err("p cnf 1 1\n2 0\n"), ParseError::LiteralOutOfRange);
}

#[test]
fn comments_and_blank_lines_are_skipped() {
    let cnf = parse_ok("c a comment\n\nc another\np cnf 2 2\nc inside\n1 2 0\n\n-1 0\n");
    assert_eq!(solve(cnf), Outcome::Satisfiable);
}

#[test]
fn trailing_clause_without_terminator_is_accepted() {
    let cnf = parse_ok("p cnf 1 1\n1\n");
    assert_eq!(solve(cnf), Outcome::Satisfiable);
}

#[test]
fn plus_signs_are_accepted_in_numbers() {
    let cnf = parse_ok("p cnf +1 +1\n+1 0\n");
    assert_eq!(solve(cnf), Outcome::Satisfiable);
}

#[test]
fn clauses_may_share_one_line() {
    let cnf = parse_ok("p cnf 2 2\n1 0 -1 -2 0\n");
    assert_eq!(solve(cnf), Outcome::Satisfiable);
}

#[test]
fn consecutive_zeros_do_not_form_empty_clauses() {
    let cnf = parse_ok("p cnf 1 1\n0 0 1 0 0\n");
    assert_eq!(solve(cnf), Outcome::Satisfiable);
}

#[test]
fn carriage_returns_are_whitespace() {
    let cnf = parse_ok("p cnf 1 1\r\n1 0\r\n");
    assert_eq!(solve(cnf), Outcome::Satisfiable);
}

#[test]
fn space_before_c_is_not_a_comment() {
    // a line is a comment only when its first byte is `c`
    assert_eq!(parse_err(" c cnf\np cnf 1 1\n1 0\n"), ParseError::MissingProblemLine);
}
