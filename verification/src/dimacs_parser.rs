//! A parser for the DIMACS CNF text format.
//!
//! Lines beginning with `c` are comments; blank lines are skipped.  The
//! first remaining line must be `p cnf <num_variables> <num_clauses>`.  The
//! remaining lines hold whitespace-separated signed integers; each run of
//! integers terminated by a `0` forms one clause, and a trailing clause
//! lacking its `0` is still accepted.  The count of parsed clauses must
//! equal the declared count, and every literal's variable identifier must
//! lie within the declared variable count.
//!
//! The parser is specified against the UTF-8 byte view of its input.

use vstd::prelude::*;
use vstd::string::StrSliceExecFns;
use vstd::string::StringSliceAdditionalSpecFns;

use crate::cnf::{Literal, OwnedCNF, OwnedClause};
use crate::semantics::lit_var;

verus! {

// ------------------------------------------------------------------
// Errors
// ------------------------------------------------------------------

/// Why a DIMACS text was rejected.  No input is silently corrected.
#[derive(Debug, PartialEq, Eq)]
pub enum ParseError {
    /// No non-comment, non-blank line begins the input, or the first such
    /// line does not start with the token `p`.
    MissingProblemLine,
    /// The problem line ends after `p`.
    MissingFormat,
    /// The format token was not `cnf`; holds the offending token's bytes.
    UnsupportedFormat(Vec<u8>),
    /// The problem line ends before the variable count.
    MissingVariableCount,
    /// The variable count is not an unsigned integer within range.
    InvalidVariableCount,
    /// The problem line ends before the clause count.
    MissingClauseCount,
    /// The clause count is not an unsigned integer within range.
    InvalidClauseCount,
    /// The problem line contains additional tokens.
    ExtraProblemToken,
    /// A clause token is not a signed 32-bit integer.
    InvalidLiteral,
    /// A literal's variable identifier exceeds the declared variable count.
    LiteralOutOfRange,
    /// The number of parsed clauses differs from the declared count.
    ClauseCountMismatch { declared: usize, found: usize },
}

/// The mathematical counterpart of [`ParseError`].
pub enum SpecParseError {
    MissingProblemLine,
    MissingFormat,
    UnsupportedFormat(Seq<u8>),
    MissingVariableCount,
    InvalidVariableCount,
    MissingClauseCount,
    InvalidClauseCount,
    ExtraProblemToken,
    InvalidLiteral,
    LiteralOutOfRange,
    ClauseCountMismatch { declared: int, found: int },
}

impl View for ParseError {
    type V = SpecParseError;

    open spec fn view(&self) -> SpecParseError {
        match self {
            ParseError::MissingProblemLine => SpecParseError::MissingProblemLine,
            ParseError::MissingFormat => SpecParseError::MissingFormat,
            ParseError::UnsupportedFormat(t) => SpecParseError::UnsupportedFormat(t@),
            ParseError::MissingVariableCount => SpecParseError::MissingVariableCount,
            ParseError::InvalidVariableCount => SpecParseError::InvalidVariableCount,
            ParseError::MissingClauseCount => SpecParseError::MissingClauseCount,
            ParseError::InvalidClauseCount => SpecParseError::InvalidClauseCount,
            ParseError::ExtraProblemToken => SpecParseError::ExtraProblemToken,
            ParseError::InvalidLiteral => SpecParseError::InvalidLiteral,
            ParseError::LiteralOutOfRange => SpecParseError::LiteralOutOfRange,
            ParseError::ClauseCountMismatch { declared, found } => {
                SpecParseError::ClauseCountMismatch {
                    declared: *declared as int,
                    found: *found as int,
                }
            },
        }
    }
}

// ------------------------------------------------------------------
// Lexing: lines, comments, whitespace-separated tokens
// ------------------------------------------------------------------

/// Whitespace within a line: space, tab, carriage return, vertical tab,
/// form feed.  Line feed ends a line instead.
pub open spec fn is_line_space(b: u8) -> bool {
    b == 32 || b == 9 || b == 13 || b == 11 || b == 12
}

/// The lexer's state after some prefix of the input: whether it is inside a
/// comment line, whether the current line has seen any byte yet, the bytes
/// of the token being read, the completed tokens of the current line, and
/// the completed token lines.
#[verifier::ext_equal]
pub struct LexState {
    pub in_comment: bool,
    pub at_line_start: bool,
    pub token: Seq<u8>,
    pub line: Seq<Seq<u8>>,
    pub lines: Seq<Seq<Seq<u8>>>,
}

pub open spec fn lex_init() -> LexState {
    LexState {
        in_comment: false,
        at_line_start: true,
        token: Seq::empty(),
        line: Seq::empty(),
        lines: Seq::empty(),
    }
}

/// Ends the token being read, if any.
pub open spec fn lex_flush_token(st: LexState) -> LexState {
    if st.token.len() > 0 {
        LexState { token: Seq::empty(), line: st.line.push(st.token), ..st }
    } else {
        st
    }
}

/// Ends the current line: a line without tokens (blank, or a comment) is
/// dropped.
pub open spec fn lex_flush_line(st: LexState) -> LexState {
    let st1 = lex_flush_token(st);
    if st1.line.len() > 0 {
        LexState { line: Seq::empty(), lines: st1.lines.push(st1.line), ..st1 }
    } else {
        st1
    }
}

/// One byte of input.
pub open spec fn lex_step(st: LexState, b: u8) -> LexState {
    if st.in_comment {
        if b == 10 {
            LexState { in_comment: false, at_line_start: true, ..st }
        } else {
            st
        }
    } else if b == 10 {
        let st1 = lex_flush_line(st);
        LexState { at_line_start: true, ..st1 }
    } else if st.at_line_start && b == 99 {
        // a line whose first byte is `c` is a comment
        LexState { in_comment: true, at_line_start: false, ..st }
    } else if is_line_space(b) {
        let st1 = lex_flush_token(st);
        LexState { at_line_start: false, ..st1 }
    } else {
        LexState { at_line_start: false, token: st.token.push(b), ..st }
    }
}

pub open spec fn lex_run(st: LexState, s: Seq<u8>) -> LexState
    decreases s.len(),
{
    if s.len() == 0 {
        st
    } else {
        lex_run(lex_step(st, s.first()), s.drop_first())
    }
}

/// The token lines of the input: tokens grouped by line, with blank and
/// comment lines dropped.
pub open spec fn lex_groups(s: Seq<u8>) -> Seq<Seq<Seq<u8>>> {
    lex_flush_line(lex_run(lex_init(), s)).lines
}

/// Copies a byte vector.
fn copy_bytes(v: &Vec<u8>) -> (r: Vec<u8>)
    ensures
        r@ == v@,
{
    let mut r: Vec<u8> = Vec::new();
    let mut i: usize = 0;
    while i < v.len()
        invariant
            0 <= i <= v.len(),
            r@ == v@.subrange(0, i as int),
        decreases v.len() - i,
    {
        r.push(v[i]);
        assert(v@.subrange(0, i + 1 as int) == v@.subrange(0, i as int).push(v@[i as int]));
        i = i + 1;
    }
    assert(v@.subrange(0, v.len() as int) == v@);
    r
}

/// Runs the lexer over the input bytes.
fn lex_exec(bytes: &Vec<u8>) -> (r: Vec<Vec<Vec<u8>>>)
    ensures
        r.deep_view() == lex_groups(bytes@),
{
    let mut in_comment: bool = false;
    let mut at_line_start: bool = true;
    let mut token: Vec<u8> = Vec::new();
    let mut line: Vec<Vec<u8>> = Vec::new();
    let mut lines: Vec<Vec<Vec<u8>>> = Vec::new();
    let ghost whole = bytes@;
    let mut i: usize = 0;
    proof {
        assert(lex_state(false, true, token, line, lines) =~~= lex_init());
        assert(whole.subrange(0, whole.len() as int) == whole);
    }
    while i < bytes.len()
        invariant
            0 <= i <= bytes@.len(),
            whole == bytes@,
            lex_run(lex_init(), whole) == lex_run(
                lex_state(in_comment, at_line_start, token, line, lines),
                whole.subrange(i as int, whole.len() as int),
            ),
        decreases bytes@.len() - i,
    {
        let ghost pre = lex_state(in_comment, at_line_start, token, line, lines);
        let ghost rest = whole.subrange(i as int, whole.len() as int);
        let b = bytes[i];
        if in_comment {
            if b == 10 {
                in_comment = false;
                at_line_start = true;
            }
        } else if b == 10 {
            if token.len() > 0 {
                let mut t: Vec<u8> = Vec::new();
                core::mem::swap(&mut t, &mut token);
                line.push(t);
            }
            if line.len() > 0 {
                let mut ln: Vec<Vec<u8>> = Vec::new();
                core::mem::swap(&mut ln, &mut line);
                lines.push(ln);
            }
            at_line_start = true;
        } else if at_line_start && b == 99 {
            in_comment = true;
            at_line_start = false;
        } else if b == 32 || b == 9 || b == 13 || b == 11 || b == 12 {
            if token.len() > 0 {
                let mut t: Vec<u8> = Vec::new();
                core::mem::swap(&mut t, &mut token);
                line.push(t);
            }
            at_line_start = false;
        } else {
            token.push(b);
            at_line_start = false;
        }
        proof {
            assert(rest.len() > 0 && rest.first() == b);
            assert(rest.drop_first() =~= whole.subrange(i + 1, whole.len() as int));
            assert(lex_state(in_comment, at_line_start, token, line, lines) =~~= lex_step(pre, b));
            assert(lex_run(pre, rest) == lex_run(
                lex_step(pre, b),
                whole.subrange(i + 1, whole.len() as int),
            ));
        }
        i = i + 1;
    }
    proof {
        assert(whole.subrange(whole.len() as int, whole.len() as int).len() == 0);
        assert(lex_run(lex_init(), whole) == lex_state(
            in_comment,
            at_line_start,
            token,
            line,
            lines,
        ));
    }
    if token.len() > 0 {
        let mut t: Vec<u8> = Vec::new();
        core::mem::swap(&mut t, &mut token);
        line.push(t);
    }
    if line.len() > 0 {
        let mut ln: Vec<Vec<u8>> = Vec::new();
        core::mem::swap(&mut ln, &mut line);
        lines.push(ln);
    }
    proof {
        assert(lines.deep_view() =~~= lex_groups(whole));
    }
    lines
}

// ------------------------------------------------------------------
// Numerals
// ------------------------------------------------------------------

/// Magnitudes are accumulated with saturation at this bound, which exceeds
/// every bound the grammar compares against.
pub const MAGNITUDE_CAP: u128 = 0x1_0000_0000_0000_0000;

pub open spec fn is_digit(b: u8) -> bool {
    48 <= b <= 57
}

/// The value of a run of decimal digit bytes, most significant first.
pub open spec fn digits_value(s: Seq<u8>) -> int
    decreases s.len(),
{
    if s.len() == 0 {
        0
    } else {
        digits_value(s.drop_last()) * 10 + (s.last() - 48)
    }
}

pub open spec fn all_digits(s: Seq<u8>) -> bool {
    forall|i: int| 0 <= i < s.len() ==> is_digit(#[trigger] s[i])
}

pub open spec fn numeral_body(t: Seq<u8>) -> Seq<u8> {
    if t.len() > 0 && (t[0] == 43 || t[0] == 45) {
        t.drop_first()
    } else {
        t
    }
}

/// An optional sign (`+` or `-`) followed by at least one decimal digit.
pub open spec fn is_signed_numeral(t: Seq<u8>) -> bool {
    t.len() > 0 && numeral_body(t).len() > 0 && all_digits(numeral_body(t))
}

/// Like a signed numeral, but without a minus sign.
pub open spec fn is_unsigned_numeral(t: Seq<u8>) -> bool {
    is_signed_numeral(t) && t[0] != 45
}

pub open spec fn numeral_value(t: Seq<u8>) -> int {
    if t.len() > 0 && t[0] == 45 {
        -digits_value(numeral_body(t))
    } else {
        digits_value(numeral_body(t))
    }
}

proof fn lemma_digits_value_nonneg(s: Seq<u8>)
    requires
        all_digits(s),
    ensures
        digits_value(s) >= 0,
    decreases s.len(),
{
    if s.len() > 0 {
        assert(all_digits(s.drop_last()));
        lemma_digits_value_nonneg(s.drop_last());
        assert(is_digit(s[s.len() - 1]));
    }
}

/// Reads the digits of `t` from `start` on, saturating at [`MAGNITUDE_CAP`].
fn parse_digits_from(t: &Vec<u8>, start: usize) -> (r: Option<u128>)
    requires
        start <= t@.len(),
    ensures
        ({
            let s = t@.subrange(start as int, t@.len() as int);
            match r {
                Some(m) => {
                    &&& s.len() > 0
                    &&& all_digits(s)
                    &&& digits_value(s) >= MAGNITUDE_CAP ==> m == MAGNITUDE_CAP
                    &&& digits_value(s) < MAGNITUDE_CAP ==> m == digits_value(s)
                },
                None => !(s.len() > 0 && all_digits(s)),
            }
        }),
{
    let ghost s = t@.subrange(start as int, t@.len() as int);
    let n = t.len();
    if start >= n {
        return None;
    }
    let mut m: u128 = 0;
    let mut j: usize = start;
    while j < n
        invariant
            start <= j <= n,
            n == t@.len(),
            s == t@.subrange(start as int, t@.len() as int),
            all_digits(t@.subrange(start as int, j as int)),
            ({
                let v = digits_value(t@.subrange(start as int, j as int));
                &&& v >= MAGNITUDE_CAP ==> m == MAGNITUDE_CAP
                &&& v < MAGNITUDE_CAP ==> m == v
                &&& m <= MAGNITUDE_CAP
            }),
        decreases n - j,
    {
        let b = t[j];
        if b < 48 || b > 57 {
            proof {
                assert(s[j - start] == t@[j as int]);
                assert(!is_digit(s[j - start]));
            }
            return None;
        }
        let ghost pre = t@.subrange(start as int, j as int);
        let ghost post = t@.subrange(start as int, j + 1 as int);
        proof {
            assert(post.drop_last() == pre);
            assert(post.last() == t@[j as int]);
            lemma_digits_value_nonneg(pre);
        }
        let d = (b - 48) as u128;
        let mut m2: u128 = m * 10 + d;
        if m2 > MAGNITUDE_CAP {
            m2 = MAGNITUDE_CAP;
        }
        m = m2;
        proof {
            let v = digits_value(pre);
            let v2 = digits_value(post);
            assert(v2 == v * 10 + (t@[j as int] - 48));
            if v >= MAGNITUDE_CAP {
                assert(v2 >= v * 10 >= MAGNITUDE_CAP);
            }
        }
        j = j + 1;
    }
    proof {
        assert(t@.subrange(start as int, j as int) == s);
        assert(s.len() > 0);
    }
    Some(m)
}

/// Parses an unsigned numeral: an optional `+` then digits.
fn parse_unsigned(t: &Vec<u8>) -> (r: Option<u128>)
    ensures
        r is Some <==> is_unsigned_numeral(t@),
        r matches Some(m) ==> {
            &&& numeral_value(t@) >= MAGNITUDE_CAP ==> m == MAGNITUDE_CAP
            &&& 0 <= numeral_value(t@) < MAGNITUDE_CAP ==> m == numeral_value(t@)
        },
{
    if t.len() == 0 {
        return None;
    }
    let b0 = t[0];
    if b0 == 45 {
        return None;
    }
    let start: usize = if b0 == 43 {
        1
    } else {
        0
    };
    proof {
        assert(numeral_body(t@) =~= t@.subrange(start as int, t@.len() as int));
    }
    parse_digits_from(t, start)
}

/// Parses a signed numeral: the sign, and the magnitude saturated at
/// [`MAGNITUDE_CAP`].
fn parse_signed(t: &Vec<u8>) -> (r: Option<(bool, u128)>)
    ensures
        r is Some <==> is_signed_numeral(t@),
        r matches Some(p) ==> {
            &&& p.0 == (t@[0] == 45)
            &&& digits_value(numeral_body(t@)) >= MAGNITUDE_CAP ==> p.1 == MAGNITUDE_CAP
            &&& digits_value(numeral_body(t@)) < MAGNITUDE_CAP ==> p.1 == digits_value(
                numeral_body(t@),
            )
        },
{
    if t.len() == 0 {
        return None;
    }
    let b0 = t[0];
    let negative = b0 == 45;
    let start: usize = if b0 == 43 || b0 == 45 {
        1
    } else {
        0
    };
    proof {
        assert(numeral_body(t@) =~= t@.subrange(start as int, t@.len() as int));
    }
    match parse_digits_from(t, start) {
        Some(m) => Some((negative, m)),
        None => None,
    }
}

// ------------------------------------------------------------------
// The grammar
// ------------------------------------------------------------------

/// The meaning of the problem line `p cnf <num_variables> <num_clauses>`:
/// the two counts, or the first error in reading order.
pub open spec fn parse_problem_line(p: Seq<Seq<u8>>) -> Result<(int, int), SpecParseError> {
    if p.len() == 0 || p[0] != seq![112u8] {
        Err(SpecParseError::MissingProblemLine)
    } else if p.len() < 2 {
        Err(SpecParseError::MissingFormat)
    } else if p[1] != seq![99u8, 110u8, 102u8] {
        Err(SpecParseError::UnsupportedFormat(p[1]))
    } else if p.len() < 3 {
        Err(SpecParseError::MissingVariableCount)
    } else if !is_unsigned_numeral(p[2]) || numeral_value(p[2]) > 0x7fff_ffff {
        Err(SpecParseError::InvalidVariableCount)
    } else if p.len() < 4 {
        Err(SpecParseError::MissingClauseCount)
    } else if !is_unsigned_numeral(p[3]) || numeral_value(p[3]) > usize::MAX as int {
        Err(SpecParseError::InvalidClauseCount)
    } else if p.len() > 4 {
        Err(SpecParseError::ExtraProblemToken)
    } else {
        Ok((numeral_value(p[2]), numeral_value(p[3])))
    }
}

/// Folds the clause tokens: literals accumulate into the current clause, a
/// `0` ends it (an empty run yields no clause), and a trailing clause
/// lacking its `0` is still accepted.
pub open spec fn build_clauses(
    toks: Seq<Seq<u8>>,
    nv: int,
    acc: Seq<Seq<int>>,
    cur: Seq<int>,
) -> Result<Seq<Seq<int>>, SpecParseError>
    decreases toks.len(),
{
    if toks.len() == 0 {
        if cur.len() > 0 {
            Ok(acc.push(cur))
        } else {
            Ok(acc)
        }
    } else {
        let t = toks.first();
        if !is_signed_numeral(t) || numeral_value(t) < -0x8000_0000 || numeral_value(t)
            > 0x7fff_ffff {
            Err(SpecParseError::InvalidLiteral)
        } else if numeral_value(t) == 0 {
            build_clauses(
                toks.drop_first(),
                nv,
                if cur.len() > 0 {
                    acc.push(cur)
                } else {
                    acc
                },
                Seq::empty(),
            )
        } else if lit_var(numeral_value(t)) > nv {
            Err(SpecParseError::LiteralOutOfRange)
        } else {
            build_clauses(toks.drop_first(), nv, acc, cur.push(numeral_value(t)))
        }
    }
}

/// The meaning of a DIMACS text: the variable count and the clauses, or the
/// first error.
pub open spec fn spec_parse_dimacs(s: Seq<u8>) -> Result<(int, Seq<Seq<int>>), SpecParseError> {
    let groups = lex_groups(s);
    if groups.len() == 0 {
        Err(SpecParseError::MissingProblemLine)
    } else {
        match parse_problem_line(groups[0]) {
            Err(e) => Err(e),
            Ok(counts) => match build_clauses(
                groups.subrange(1, groups.len() as int).flatten(),
                counts.0,
                Seq::empty(),
                Seq::empty(),
            ) {
                Err(e) => Err(e),
                Ok(clauses) => if clauses.len() != counts.1 {
                    Err(
                        SpecParseError::ClauseCountMismatch {
                            declared: counts.1,
                            found: clauses.len() as int,
                        },
                    )
                } else {
                    Ok((counts.0, clauses))
                },
            },
        }
    }
}

/// Parses a formula from DIMACS text, yielding the formula or the first
/// error in reading order.  The result is pinned down, case by case, by
/// [`spec_parse_dimacs`] over the input's byte view.
pub fn parse_from_dimacs_str(input: &str) -> (r: Result<OwnedCNF, ParseError>)
    ensures
        match spec_parse_dimacs(input.spec_bytes()) {
            Ok(p) => r matches Ok(cnf) && cnf.num_vars() == p.0 && cnf@ == p.1 && cnf.wf(),
            Err(e) => r matches Err(err) && err@ == e,
        },
{
    let bytes = input.as_bytes_vec();
    let groups = lex_exec(&bytes);
    let ghost gv = groups.deep_view();
    if groups.len() == 0 {
        return Err(ParseError::MissingProblemLine);
    }

    // The problem line.
    let ghost pv = gv[0];
    proof {
        assert(pv == groups@[0].deep_view());
    }
    let problem = &groups[0];
    let ok_p = problem.len() >= 1 && problem[0].len() == 1 && problem[0][0] == 112;
    proof {
        assert(problem.deep_view() == pv);
        if problem.len() >= 1 {
            assert(pv[0] == problem@[0]@);
            if problem@[0]@.len() == 1 && problem@[0]@[0] == 112 {
                assert(pv[0] =~= seq![112u8]);
            } else {
                assert(pv[0] != seq![112u8]);
            }
        }
    }
    if !ok_p {
        return Err(ParseError::MissingProblemLine);
    }
    if problem.len() < 2 {
        return Err(ParseError::MissingFormat);
    }
    let fmt = &problem[1];
    let ok_fmt = fmt.len() == 3 && fmt[0] == 99 && fmt[1] == 110 && fmt[2] == 102;
    proof {
        assert(pv[1] == problem@[1]@);
        if ok_fmt {
            assert(pv[1] =~= seq![99u8, 110u8, 102u8]);
        } else {
            assert(pv[1] != seq![99u8, 110u8, 102u8]);
        }
    }
    if !ok_fmt {
        return Err(ParseError::UnsupportedFormat(copy_bytes(fmt)));
    }
    if problem.len() < 3 {
        return Err(ParseError::MissingVariableCount);
    }
    proof {
        assert(pv[2] == problem@[2]@);
    }
    let num_variables: u32 = match parse_unsigned(&problem[2]) {
        None => {
            return Err(ParseError::InvalidVariableCount);
        },
        Some(m) => {
            if m > 0x7fff_ffff {
                proof {
                    lemma_digits_value_nonneg(numeral_body(pv[2]));
                }
                return Err(ParseError::InvalidVariableCount);
            }
            proof {
                lemma_digits_value_nonneg(numeral_body(pv[2]));
            }
            m as u32
        },
    };
    if problem.len() < 4 {
        return Err(ParseError::MissingClauseCount);
    }
    proof {
        assert(pv[3] == problem@[3]@);
    }
    let num_clauses: usize = match parse_unsigned(&problem[3]) {
        None => {
            return Err(ParseError::InvalidClauseCount);
        },
        Some(m) => {
            if m > usize::MAX as u128 {
                proof {
                    lemma_digits_value_nonneg(numeral_body(pv[3]));
                }
                return Err(ParseError::InvalidClauseCount);
            }
            proof {
                lemma_digits_value_nonneg(numeral_body(pv[3]));
            }
            m as usize
        },
    };
    if problem.len() > 4 {
        return Err(ParseError::ExtraProblemToken);
    }
    proof {
        assert(parse_problem_line(pv) == Ok::<_, SpecParseError>(
            (num_variables as int, num_clauses as int),
        ));
    }

    // The clause tokens: every token of every later line, in order.
    let mut toks: Vec<Vec<u8>> = Vec::new();
    let mut gi: usize = 1;
    proof {
        assert(gv.subrange(1, 1).len() == 0);
        assert(toks.deep_view() =~= gv.subrange(1, 1).flatten());
    }
    while gi < groups.len()
        invariant
            1 <= gi <= gv.len(),
            gv == groups.deep_view(),
            gv.len() == groups@.len(),
            toks.deep_view() == gv.subrange(1, gi as int).flatten(),
            parse_problem_line(gv[0]) == Ok::<(int, int), SpecParseError>(
                (num_variables as int, num_clauses as int),
            ),
        decreases gv.len() - gi,
    {
        let ghost base = toks.deep_view();
        let ghost linev = gv[gi as int];
        proof {
            assert(linev == groups@[gi as int].deep_view());
        }
        let line_len = groups[gi].len();
        let mut ti: usize = 0;
        while ti < line_len
            invariant
                0 <= ti <= line_len,
                1 <= gi < gv.len(),
                gv == groups.deep_view(),
                gv.len() == groups@.len(),
                line_len == groups@[gi as int]@.len(),
                linev == groups@[gi as int].deep_view(),
                toks.deep_view() == base + linev.subrange(0, ti as int),
            decreases line_len - ti,
        {
            let ghost tpre = toks.deep_view();
            let token = copy_bytes(&groups[gi][ti]);
            proof {
                assert(linev[ti as int] == groups@[gi as int]@[ti as int]@);
            }
            toks.push(token);
            proof {
                assert(toks.deep_view() =~= tpre.push(linev[ti as int]));
                assert(linev.subrange(0, ti + 1 as int) == linev.subrange(0, ti as int).push(
                    linev[ti as int],
                ));
                assert(toks.deep_view() =~= base + linev.subrange(0, ti + 1 as int));
            }
            ti = ti + 1;
        }
        proof {
            assert(linev.subrange(0, line_len as int) == linev);
            assert(gv.subrange(1, gi + 1 as int) =~= gv.subrange(1, gi as int).push(linev));
            gv.subrange(1, gi as int).lemma_flatten_push(linev);
            assert(toks.deep_view() == gv.subrange(1, gi + 1 as int).flatten());
        }
        gi = gi + 1;
    }
    proof {
        assert(gv.subrange(1, gv.len() as int) == gv.subrange(1, gi as int));
    }

    // Fold the tokens into clauses.
    let ghost all_toks = toks.deep_view();
    let ghost nv = num_variables as int;
    proof {
        assert(all_toks == gv.subrange(1, gv.len() as int).flatten());
        assert(gv == lex_groups(input.spec_bytes()));
        assert(spec_parse_dimacs(input.spec_bytes()) == (match build_clauses(
            all_toks,
            nv,
            Seq::empty(),
            Seq::empty(),
        ) {
            Err(e) => Err::<(int, Seq<Seq<int>>), SpecParseError>(e),
            Ok(cl) => if cl.len() != num_clauses as int {
                Err(
                    SpecParseError::ClauseCountMismatch {
                        declared: num_clauses as int,
                        found: cl.len() as int,
                    },
                )
            } else {
                Ok((nv, cl))
            },
        }));
    }
    let mut clauses: Vec<OwnedClause> = Vec::new();
    let mut current: Vec<Literal> = Vec::new();
    let mut k: usize = 0;
    proof {
        assert(all_toks.subrange(0, all_toks.len() as int) == all_toks);
        assert(clauses@.map_values(|c: OwnedClause| c@) =~= Seq::<Seq<int>>::empty());
        assert(current@.map_values(|l: Literal| l@) =~= Seq::<int>::empty());
    }
    while k < toks.len()
        invariant
            0 <= k <= all_toks.len(),
            toks.deep_view() == all_toks,
            toks@.len() == all_toks.len(),
            num_variables <= 0x7fff_ffff,
            nv == num_variables as int,
            spec_parse_dimacs(input.spec_bytes()) == (match build_clauses(
                all_toks,
                nv,
                Seq::empty(),
                Seq::empty(),
            ) {
                Err(e) => Err::<(int, Seq<Seq<int>>), SpecParseError>(e),
                Ok(cl) => if cl.len() != num_clauses as int {
                    Err(
                        SpecParseError::ClauseCountMismatch {
                            declared: num_clauses as int,
                            found: cl.len() as int,
                        },
                    )
                } else {
                    Ok((nv, cl))
                },
            }),
            build_clauses(all_toks, nv, Seq::empty(), Seq::empty()) == build_clauses(
                all_toks.subrange(k as int, all_toks.len() as int),
                nv,
                clauses@.map_values(|c: OwnedClause| c@),
                current@.map_values(|l: Literal| l@),
            ),
            forall|i: int, j: int|
                0 <= i < clauses@.len() && 0 <= j < clauses@[i]@.len() ==> 1 <= lit_var(
                    #[trigger] clauses@[i]@[j],
                ) <= nv,
            forall|j: int| 0 <= j < current@.len() ==> 1 <= lit_var(#[trigger] current@[j]@) <= nv,
        decreases all_toks.len() - k,
    {
        let ghost rest = all_toks.subrange(k as int, all_toks.len() as int);
        let ghost accv = clauses@.map_values(|c: OwnedClause| c@);
        let ghost curv = current@.map_values(|l: Literal| l@);
        proof {
            assert(rest.first() == all_toks[k as int]);
            assert(rest.drop_first() =~= all_toks.subrange(k + 1 as int, all_toks.len() as int));
            assert(all_toks[k as int] == toks@[k as int]@);
        }
        let token = &toks[k];
        let ghost tv = token@;
        match parse_signed(token) {
            None => {
                return Err(ParseError::InvalidLiteral);
            },
            Some((negative, m)) => {
                proof {
                    lemma_digits_value_nonneg(numeral_body(tv));
                }
                if !negative && m > 0x7fff_ffff {
                    return Err(ParseError::InvalidLiteral);
                }
                if negative && m > 0x8000_0000 {
                    return Err(ParseError::InvalidLiteral);
                }
                proof {
                    assert(-0x8000_0000 <= numeral_value(tv) <= 0x7fff_ffff);
                }
                if m == 0 {
                    proof {
                        assert(numeral_value(tv) == 0);
                        assert(rest.first() == tv);
                        assert(build_clauses(rest, nv, accv, curv) == build_clauses(
                            rest.drop_first(),
                            nv,
                            if curv.len() > 0 {
                                accv.push(curv)
                            } else {
                                accv
                            },
                            Seq::empty(),
                        ));
                    }
                    if current.len() > 0 {
                        let mut finished: Vec<Literal> = Vec::new();
                        core::mem::swap(&mut finished, &mut current);
                        clauses.push(OwnedClause(finished));
                        proof {
                            assert(clauses@.map_values(|c: OwnedClause| c@) =~= accv.push(curv));
                            assert(current@.map_values(|l: Literal| l@) =~= Seq::<int>::empty());
                        }
                    } else {
                        proof {
                            assert(curv =~= Seq::<int>::empty());
                        }
                    }
                } else {
                    proof {
                        assert(numeral_value(tv) != 0);
                        assert(lit_var(numeral_value(tv)) == m || m >= MAGNITUDE_CAP);
                    }
                    if m > num_variables as u128 {
                        return Err(ParseError::LiteralOutOfRange);
                    }
                    let code: i32 = if negative {
                        -(m as i32)
                    } else {
                        m as i32
                    };
                    current.push(Literal { code });
                    proof {
                        assert(current@.map_values(|l: Literal| l@) =~= curv.push(
                            numeral_value(tv),
                        ));
                        assert(rest.first() == tv);
                        assert(build_clauses(rest, nv, accv, curv) == build_clauses(
                            rest.drop_first(),
                            nv,
                            accv,
                            curv.push(numeral_value(tv)),
                        ));
                    }
                }
            },
        }
        proof {
            assert(build_clauses(rest, nv, accv, curv) == build_clauses(
                all_toks.subrange(k + 1 as int, all_toks.len() as int),
                nv,
                clauses@.map_values(|c: OwnedClause| c@),
                current@.map_values(|l: Literal| l@),
            ));
        }
        k = k + 1;
    }
    proof {
        assert(all_toks.subrange(k as int, all_toks.len() as int).len() == 0);
    }
    if current.len() > 0 {
        let mut finished: Vec<Literal> = Vec::new();
        core::mem::swap(&mut finished, &mut current);
        let ghost accv = clauses@.map_values(|c: OwnedClause| c@);
        let ghost curv = finished@.map_values(|l: Literal| l@);
        clauses.push(OwnedClause(finished));
        proof {
            assert(clauses@.map_values(|c: OwnedClause| c@) =~= accv.push(curv));
        }
    }
    let found = clauses.len();
    if found != num_clauses {
        return Err(ParseError::ClauseCountMismatch { declared: num_clauses, found });
    }
    let cnf = OwnedCNF { num_variables, clauses };
    proof {
        assert(cnf.wf());
    }
    Ok(cnf)
}

/// The lexer state described by the exec-mode locals.
pub open spec fn lex_state(
    in_comment: bool,
    at_line_start: bool,
    token: Vec<u8>,
    line: Vec<Vec<u8>>,
    lines: Vec<Vec<Vec<u8>>>,
) -> LexState {
    LexState {
        in_comment: in_comment,
        at_line_start: at_line_start,
        token: token@,
        line: line.deep_view(),
        lines: lines.deep_view(),
    }
}

} // verus!
