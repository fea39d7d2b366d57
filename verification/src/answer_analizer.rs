//! The expression engine: a recursive-descent parser and evaluator for
//! answer texts over non-negative integer literals, `+ - * /` and
//! parentheses, insignificant blanks everywhere. A single pass yields the
//! arithmetic value and the ordered literals it consumed, or the failure
//! that stopped it. It never panics, whatever the input.
//!
//! Multiplication and division bind tighter than addition and subtraction;
//! every level folds left to right; division is integer division.

use vstd::prelude::*;
use vstd::string::StringSliceAdditionalSpecFns;

verus! {

/// Why an answer failed to parse or evaluate.
#[derive(Clone, Copy, PartialEq, Eq, Structural, Debug)]
pub enum ParseOrEvalError {
    /// Nothing stood where a value was expected.
    EmptyInput,
    /// A parenthesized group was never closed.
    UnmatchedParen,
    /// Input remained after a complete expression.
    TrailingInput,
    /// Something other than an integer literal or a group stood where a
    /// value was expected, or a value fell outside the machine range.
    InvalidLiteral,
    /// The expression divides by zero.
    DivisionByZero,
}

/// The outcome of one parsing step: the value and the ordered literals
/// consumed so far, with the position just past the consumed input; or the
/// failure that stopped the parse.
pub enum Parsed {
    Done { value: i64, lits: Seq<i64>, pos: nat },
    Failed { err: ParseOrEvalError },
}

/// A blank: a space or a tab.
pub open spec fn is_space(c: u8) -> bool {
    c == 32 || c == 9
}

/// A decimal digit.
pub open spec fn is_digit(c: u8) -> bool {
    48 <= c <= 57
}

/// Length of the run of blanks starting at `i`.
pub open spec fn ws_len(b: Seq<u8>, i: nat) -> nat
    decreases b.len() - i,
{
    if i < b.len() && is_space(b[i as int]) {
        (1 + ws_len(b, i + 1)) as nat
    } else {
        0
    }
}

/// The first position at or after `i` that holds no blank.
pub open spec fn skip_ws(b: Seq<u8>, i: nat) -> nat {
    i + ws_len(b, i)
}

/// Length of the run of decimal digits starting at `i`.
pub open spec fn digits_len(b: Seq<u8>, i: nat) -> nat
    decreases b.len() - i,
{
    if i < b.len() && is_digit(b[i as int]) {
        (1 + digits_len(b, i + 1)) as nat
    } else {
        0
    }
}

/// The value of the `n` digits starting at `i`, folded left onto `acc`.
pub open spec fn digits_value(b: Seq<u8>, i: nat, n: nat, acc: int) -> int
    decreases n,
{
    if n == 0 {
        acc
    } else {
        digits_value(b, i + 1, (n - 1) as nat, acc * 10 + (b[i as int] - 48))
    }
}

/// Parse a factor: an integer literal or a parenthesized expression, with
/// surrounding blanks consumed.
pub open spec fn parse_factor(b: Seq<u8>, i: nat) -> Parsed
    decreases b.len() - i, 0int,
{
    let j = skip_ws(b, i);
    if j >= b.len() {
        Parsed::Failed { err: ParseOrEvalError::EmptyInput }
    } else if is_digit(b[j as int]) {
        let n = digits_len(b, j);
        let v = digits_value(b, j, n, 0);
        if v > i64::MAX as int {
            Parsed::Failed { err: ParseOrEvalError::InvalidLiteral }
        } else {
            Parsed::Done { value: v as i64, lits: seq![v as i64], pos: skip_ws(b, j + n) }
        }
    } else if b[j as int] == 40 {
        // '('
        match parse_expr(b, j + 1) {
            Parsed::Done { value, lits, pos } => if pos < b.len() && b[pos as int] == 41 {
                // ')'
                Parsed::Done { value, lits, pos: skip_ws(b, pos + 1) }
            } else {
                Parsed::Failed { err: ParseOrEvalError::UnmatchedParen }
            },
            f => f,
        }
    } else {
        Parsed::Failed { err: ParseOrEvalError::InvalidLiteral }
    }
}

/// Parse the multiplicative tail `(('*' | '/') factor)*`, folding left onto
/// `acc`. An operand that fails to parse ends the repetition before its
/// operator, leaving that input unconsumed (a whole answer then reports
/// trailing input); a parsed operand that fails to evaluate — division by
/// zero, or a value outside the machine range — fails the parse. The
/// position guard cannot fail (a parse step never moves backwards); it
/// keeps the recursion well founded.
pub open spec fn parse_term_more(b: Seq<u8>, i: nat, acc: i64, lits: Seq<i64>) -> Parsed
    decreases b.len() - i, 1int,
{
    let j = skip_ws(b, i);
    if j < b.len() && (b[j as int] == 42 || b[j as int] == 47) {
        // '*' or '/'
        match parse_factor(b, j + 1) {
            Parsed::Done { value, lits: l2, pos } => if i < pos <= b.len() {
                let combined = if b[j as int] == 42 {
                    acc.checked_mul(value)
                } else {
                    acc.checked_div(value)
                };
                match combined {
                    Some(x) => parse_term_more(b, pos, x, lits + l2),
                    None => Parsed::Failed {
                        err: if b[j as int] == 47 && value == 0 {
                            ParseOrEvalError::DivisionByZero
                        } else {
                            ParseOrEvalError::InvalidLiteral
                        },
                    },
                }
            } else {
                Parsed::Failed { err: ParseOrEvalError::InvalidLiteral }
            },
            Parsed::Failed { .. } => Parsed::Done { value: acc, lits, pos: i },
        }
    } else {
        Parsed::Done { value: acc, lits, pos: i }
    }
}

/// Parse a term: a factor followed by its multiplicative tail. As in the
/// tail, the position guard cannot fail and only founds the recursion.
pub open spec fn parse_term(b: Seq<u8>, i: nat) -> Parsed
    decreases b.len() - i, 2int,
{
    match parse_factor(b, i) {
        Parsed::Done { value, lits, pos } => if i <= pos <= b.len() {
            parse_term_more(b, pos, value, lits)
        } else {
            Parsed::Failed { err: ParseOrEvalError::InvalidLiteral }
        },
        f => f,
    }
}

/// Parse the additive tail `(('+' | '-') term)*`, folding left onto `acc`.
/// As in the multiplicative tail, an operand that fails to parse ends the
/// repetition before its operator, while a failed evaluation fails the
/// parse; the position guard cannot fail and only founds the recursion.
pub open spec fn parse_expr_more(b: Seq<u8>, i: nat, acc: i64, lits: Seq<i64>) -> Parsed
    decreases b.len() - i, 3int,
{
    let j = skip_ws(b, i);
    if j < b.len() && (b[j as int] == 43 || b[j as int] == 45) {
        // '+' or '-'
        match parse_term(b, j + 1) {
            Parsed::Done { value, lits: l2, pos } => if i < pos <= b.len() {
                let combined = if b[j as int] == 43 {
                    acc.checked_add(value)
                } else {
                    acc.checked_sub(value)
                };
                match combined {
                    Some(x) => parse_expr_more(b, pos, x, lits + l2),
                    None => Parsed::Failed { err: ParseOrEvalError::InvalidLiteral },
                }
            } else {
                Parsed::Failed { err: ParseOrEvalError::InvalidLiteral }
            },
            Parsed::Failed { .. } => Parsed::Done { value: acc, lits, pos: i },
        }
    } else {
        Parsed::Done { value: acc, lits, pos: i }
    }
}

/// Parse an expression: a term followed by its additive tail. As above,
/// the position guard cannot fail and only founds the recursion.
pub open spec fn parse_expr(b: Seq<u8>, i: nat) -> Parsed
    decreases b.len() - i, 4int,
{
    match parse_term(b, i) {
        Parsed::Done { value, lits, pos } => if i <= pos <= b.len() {
            parse_expr_more(b, pos, value, lits)
        } else {
            Parsed::Failed { err: ParseOrEvalError::InvalidLiteral }
        },
        f => f,
    }
}

/// The meaning of a whole answer text: its arithmetic value and the ordered
/// literals it consumed, or the failure that stopped parse or evaluation.
pub open spec fn spec_analyze(b: Seq<u8>) -> Result<(i64, Seq<i64>), ParseOrEvalError> {
    match parse_expr(b, 0) {
        Parsed::Done { value, lits, pos } => if pos == b.len() {
            Ok((value, lits))
        } else {
            Err(ParseOrEvalError::TrailingInput)
        },
        Parsed::Failed { err } => Err(err),
    }
}

/// A blank run stays inside the input.
proof fn lemma_ws_len(b: Seq<u8>, i: nat)
    requires
        i <= b.len(),
    ensures
        i + ws_len(b, i) <= b.len(),
    decreases b.len() - i,
{
    if i < b.len() && is_space(b[i as int]) {
        lemma_ws_len(b, i + 1);
    }
}

/// A digit run stays inside the input and holds digits only.
proof fn lemma_digits_len(b: Seq<u8>, i: nat)
    requires
        i <= b.len(),
    ensures
        i + digits_len(b, i) <= b.len(),
        forall|k: int| i <= k < i + digits_len(b, i) ==> is_digit(b[k]),
    decreases b.len() - i,
{
    if i < b.len() && is_digit(b[i as int]) {
        lemma_digits_len(b, i + 1);
    }
}

/// A successful factor ends strictly past where it started, inside the input.
proof fn lemma_factor_pos(b: Seq<u8>, i: nat)
    requires
        i <= b.len(),
    ensures
        parse_factor(b, i) matches Parsed::Done { pos, .. } ==> i < pos <= b.len(),
    decreases b.len() - i, 0int,
{
    lemma_ws_len(b, i);
    let j = skip_ws(b, i);
    if j < b.len() {
        if is_digit(b[j as int]) {
            let n = digits_len(b, j);
            assert(n >= 1);
            lemma_digits_len(b, j);
            lemma_ws_len(b, j + n);
        } else if b[j as int] == 40 {
            lemma_expr_pos(b, j + 1);
            match parse_expr(b, j + 1) {
                Parsed::Done { pos, .. } => {
                    if pos < b.len() && b[pos as int] == 41 {
                        lemma_ws_len(b, pos + 1);
                    }
                },
                _ => {},
            }
        }
    }
}

/// A successful multiplicative tail never moves backwards.
proof fn lemma_term_more_pos(b: Seq<u8>, i: nat, acc: i64, lits: Seq<i64>)
    requires
        i <= b.len(),
    ensures
        parse_term_more(b, i, acc, lits) matches Parsed::Done { pos, .. } ==> i <= pos <= b.len(),
    decreases b.len() - i, 1int,
{
    lemma_ws_len(b, i);
    let j = skip_ws(b, i);
    if j < b.len() && (b[j as int] == 42 || b[j as int] == 47) {
        lemma_factor_pos(b, j + 1);
        match parse_factor(b, j + 1) {
            Parsed::Done { value, lits: l2, pos } => {
                let combined = if b[j as int] == 42 {
                    acc.checked_mul(value)
                } else {
                    acc.checked_div(value)
                };
                match combined {
                    Some(x) => {
                        lemma_term_more_pos(b, pos, x, lits + l2);
                    },
                    None => {},
                }
            },
            _ => {},
        }
    }
}

/// A successful term ends strictly past where it started, inside the input.
proof fn lemma_term_pos(b: Seq<u8>, i: nat)
    requires
        i <= b.len(),
    ensures
        parse_term(b, i) matches Parsed::Done { pos, .. } ==> i < pos <= b.len(),
    decreases b.len() - i, 2int,
{
    lemma_factor_pos(b, i);
    match parse_factor(b, i) {
        Parsed::Done { value, lits, pos } => {
            lemma_term_more_pos(b, pos, value, lits);
        },
        _ => {},
    }
}

/// A successful additive tail never moves backwards.
proof fn lemma_expr_more_pos(b: Seq<u8>, i: nat, acc: i64, lits: Seq<i64>)
    requires
        i <= b.len(),
    ensures
        parse_expr_more(b, i, acc, lits) matches Parsed::Done { pos, .. } ==> i <= pos <= b.len(),
    decreases b.len() - i, 3int,
{
    lemma_ws_len(b, i);
    let j = skip_ws(b, i);
    if j < b.len() && (b[j as int] == 43 || b[j as int] == 45) {
        lemma_term_pos(b, j + 1);
        match parse_term(b, j + 1) {
            Parsed::Done { value, lits: l2, pos } => {
                let combined = if b[j as int] == 43 {
                    acc.checked_add(value)
                } else {
                    acc.checked_sub(value)
                };
                match combined {
                    Some(x) => {
                        lemma_expr_more_pos(b, pos, x, lits + l2);
                    },
                    None => {},
                }
            },
            _ => {},
        }
    }
}

/// A successful expression ends strictly past where it started, inside the
/// input.
proof fn lemma_expr_pos(b: Seq<u8>, i: nat)
    requires
        i <= b.len(),
    ensures
        parse_expr(b, i) matches Parsed::Done { pos, .. } ==> i < pos <= b.len(),
    decreases b.len() - i, 4int,
{
    lemma_term_pos(b, i);
    match parse_term(b, i) {
        Parsed::Done { value, lits, pos } => {
            lemma_expr_more_pos(b, pos, value, lits);
        },
        _ => {},
    }
}

/// Folding one more digit appends it at the low end of the value.
proof fn lemma_digits_value_append(b: Seq<u8>, i: nat, n: nat, acc: int)
    ensures
        digits_value(b, i, n + 1, acc) == digits_value(b, i, n, acc) * 10 + (b[i + n as int]
            - 48),
    decreases n,
{
    reveal_with_fuel(digits_value, 2);
    if n > 0 {
        lemma_digits_value_append(b, i + 1, (n - 1) as nat, acc * 10 + (b[i as int] - 48));
    }
}

/// Folding digits in two halves equals folding them in one pass.
proof fn lemma_digits_value_split(b: Seq<u8>, i: nat, m: nat, n: nat, acc: int)
    requires
        m <= n,
    ensures
        digits_value(b, i, n, acc) == digits_value(b, i + m, (n - m) as nat, digits_value(b, i, m, acc)),
    decreases m,
{
    if m > 0 {
        lemma_digits_value_split(b, i + 1, (m - 1) as nat, (n - 1) as nat, acc * 10 + (b[i as int] - 48));
    }
}

/// Folding digits never shrinks a non-negative accumulator.
proof fn lemma_digits_value_lower(b: Seq<u8>, i: nat, n: nat, acc: int)
    requires
        acc >= 0,
        forall|k: int| i <= k < i + n ==> is_digit(b[k]),
    ensures
        digits_value(b, i, n, acc) >= acc,
    decreases n,
{
    if n > 0 {
        assert(is_digit(b[i as int]));
        lemma_digits_value_lower(b, i + 1, (n - 1) as nat, acc * 10 + (b[i as int] - 48));
    }
}

/// The first position at or after `i` that holds no blank.
fn exec_skip_ws(b: &[u8], i: usize) -> (r: usize)
    requires
        i <= b@.len(),
    ensures
        r as nat == skip_ws(b@, i as nat),
        i <= r <= b@.len(),
{
    let mut j = i;
    while j < b.len() && (b[j] == 32 || b[j] == 9)
        invariant
            i <= j <= b@.len(),
            skip_ws(b@, i as nat) == skip_ws(b@, j as nat),
        decreases b@.len() - j,
    {
        j = j + 1;
    }
    proof {
        lemma_ws_len(b@, j as nat);
    }
    j
}

/// Read the decimal literal starting at the digit `i`: its value and the
/// position just past its digits, or the failure for a literal too large
/// for the machine range.
fn exec_scan_number(b: &[u8], i: usize) -> (r: Result<(i64, usize), ParseOrEvalError>)
    requires
        i < b@.len(),
        is_digit(b@[i as int]),
    ensures
        digits_value(b@, i as nat, digits_len(b@, i as nat), 0) > i64::MAX as int ==> r
            == Err::<(i64, usize), ParseOrEvalError>(ParseOrEvalError::InvalidLiteral),
        digits_value(b@, i as nat, digits_len(b@, i as nat), 0) <= i64::MAX as int ==> (r
            matches Ok((v, end)) && v as int == digits_value(b@, i as nat, digits_len(b@, i as nat), 0)
            && end as nat == i + digits_len(b@, i as nat)),
{
    proof {
        lemma_digits_len(b@, i as nat);
    }
    let ghost n = digits_len(b@, i as nat);
    let ghost v = digits_value(b@, i as nat, n, 0);
    let mut acc: i64 = 0;
    let mut j = i;
    while j < b.len() && 48 <= b[j] && b[j] <= 57
        invariant
            i <= j <= b@.len(),
            n == digits_len(b@, i as nat),
            n == (j - i) + digits_len(b@, j as nat),
            acc as int == digits_value(b@, i as nat, (j - i) as nat, 0),
            acc >= 0,
            v == digits_value(b@, i as nat, n, 0),
            forall|k: int| i <= k < i + n ==> is_digit(b@[k]),
            i + n <= b@.len(),
        decreases b@.len() - j,
    {
        let d = (b[j] - 48) as i64;
        proof {
            lemma_digits_value_append(b@, i as nat, (j - i) as nat, 0);
        }
        let stepped = match acc.checked_mul(10) {
            Some(x) => x.checked_add(d),
            None => None,
        };
        match stepped {
            Some(x) => {
                acc = x;
            },
            None => {
                proof {
                    let m = (j - i + 1) as nat;
                    assert(digits_value(b@, i as nat, m, 0) > i64::MAX as int);
                    assert(m <= n);
                    lemma_digits_value_split(b@, i as nat, m, n, 0);
                    lemma_digits_value_lower(
                        b@,
                        i as nat + m,
                        (n - m) as nat,
                        digits_value(b@, i as nat, m, 0),
                    );
                    assert(v > i64::MAX as int);
                }
                return Err(ParseOrEvalError::InvalidLiteral);
            },
        }
        j = j + 1;
    }
    proof {
        assert(digits_len(b@, j as nat) == 0);
        assert(n == j - i);
    }
    Ok((acc, j))
}

/// Whether an executable parse result agrees with a spec-level one.
pub open spec fn parsed_matches(
    r: Result<(i64, Vec<i64>, usize), ParseOrEvalError>,
    p: Parsed,
) -> bool {
    match r {
        Ok((v, lits, pos)) => p == (Parsed::Done { value: v, lits: lits@, pos: pos as nat }),
        Err(e) => p == (Parsed::Failed { err: e }),
    }
}

/// Parse a factor of the input, starting at `i`.
fn exec_factor(b: &[u8], i: usize) -> (r: Result<(i64, Vec<i64>, usize), ParseOrEvalError>)
    requires
        i <= b@.len(),
    ensures
        parsed_matches(r, parse_factor(b@, i as nat)),
    decreases b@.len() - i, 0int,
{
    let j = exec_skip_ws(b, i);
    if j >= b.len() {
        Err(ParseOrEvalError::EmptyInput)
    } else if 48 <= b[j] && b[j] <= 57 {
        match exec_scan_number(b, j) {
            Ok((v, end)) => {
                proof {
                    lemma_digits_len(b@, j as nat);
                }
                let pos = exec_skip_ws(b, end);
                let mut lits: Vec<i64> = Vec::new();
                lits.push(v);
                proof {
                    assert(lits@ =~= seq![v]);
                }
                Ok((v, lits, pos))
            },
            Err(e) => Err(e),
        }
    } else if b[j] == 40 {
        match exec_expr(b, j + 1) {
            Ok((v, lits, pos)) => {
                proof {
                    lemma_expr_pos(b@, (j + 1) as nat);
                }
                if pos < b.len() && b[pos] == 41 {
                    let pos2 = exec_skip_ws(b, pos + 1);
                    Ok((v, lits, pos2))
                } else {
                    Err(ParseOrEvalError::UnmatchedParen)
                }
            },
            Err(e) => Err(e),
        }
    } else {
        Err(ParseOrEvalError::InvalidLiteral)
    }
}

/// Parse a term of the input, starting at `i`: a factor and its
/// multiplicative tail, folded left.
fn exec_term(b: &[u8], i: usize) -> (r: Result<(i64, Vec<i64>, usize), ParseOrEvalError>)
    requires
        i <= b@.len(),
    ensures
        parsed_matches(r, parse_term(b@, i as nat)),
    decreases b@.len() - i, 1int,
{
    match exec_factor(b, i) {
        Err(e) => Err(e),
        Ok((v0, l0, p0)) => {
            proof {
                lemma_factor_pos(b@, i as nat);
            }
            let mut acc = v0;
            let mut lits = l0;
            let mut pos = p0;
            loop
                invariant
                    i <= pos <= b@.len(),
                    parse_term(b@, i as nat) == parse_term_more(b@, pos as nat, acc, lits@),
                decreases b@.len() - pos,
            {
                let j = exec_skip_ws(b, pos);
                if j < b.len() && (b[j] == 42 || b[j] == 47) {
                    match exec_factor(b, j + 1) {
                        Err(_) => {
                            // an operand that does not parse ends the tail
                            return Ok((acc, lits, pos));
                        },
                        Ok((v2, mut l2, p2)) => {
                            proof {
                                lemma_factor_pos(b@, (j + 1) as nat);
                            }
                            let star = b[j] == 42;
                            let combined = if star {
                                acc.checked_mul(v2)
                            } else {
                                acc.checked_div(v2)
                            };
                            match combined {
                                Some(x) => {
                                    acc = x;
                                    lits.append(&mut l2);
                                    pos = p2;
                                },
                                None => {
                                    return Err(
                                        if !star && v2 == 0 {
                                            ParseOrEvalError::DivisionByZero
                                        } else {
                                            ParseOrEvalError::InvalidLiteral
                                        },
                                    );
                                },
                            }
                        },
                    }
                } else {
                    return Ok((acc, lits, pos));
                }
            }
        },
    }
}

/// Parse an expression of the input, starting at `i`: a term and its
/// additive tail, folded left.
fn exec_expr(b: &[u8], i: usize) -> (r: Result<(i64, Vec<i64>, usize), ParseOrEvalError>)
    requires
        i <= b@.len(),
    ensures
        parsed_matches(r, parse_expr(b@, i as nat)),
    decreases b@.len() - i, 2int,
{
    match exec_term(b, i) {
        Err(e) => Err(e),
        Ok((v0, l0, p0)) => {
            proof {
                lemma_term_pos(b@, i as nat);
            }
            let mut acc = v0;
            let mut lits = l0;
            let mut pos = p0;
            loop
                invariant
                    i <= pos <= b@.len(),
                    parse_expr(b@, i as nat) == parse_expr_more(b@, pos as nat, acc, lits@),
                decreases b@.len() - pos,
            {
                let j = exec_skip_ws(b, pos);
                if j < b.len() && (b[j] == 43 || b[j] == 45) {
                    match exec_term(b, j + 1) {
                        Err(_) => {
                            // an operand that does not parse ends the tail
                            return Ok((acc, lits, pos));
                        },
                        Ok((v2, mut l2, p2)) => {
                            proof {
                                lemma_term_pos(b@, (j + 1) as nat);
                            }
                            let plus = b[j] == 43;
                            let combined = if plus {
                                acc.checked_add(v2)
                            } else {
                                acc.checked_sub(v2)
                            };
                            match combined {
                                Some(x) => {
                                    acc = x;
                                    lits.append(&mut l2);
                                    pos = p2;
                                },
                                None => {
                                    return Err(ParseOrEvalError::InvalidLiteral);
                                },
                            }
                        },
                    }
                } else {
                    return Ok((acc, lits, pos));
                }
            }
        },
    }
}

/// Whether an executable analysis result agrees with the spec-level one.
pub open spec fn analyze_matches(
    r: Result<(i64, Vec<i64>), ParseOrEvalError>,
    s: Result<(i64, Seq<i64>), ParseOrEvalError>,
) -> bool {
    match r {
        Ok((v, lits)) => s == Ok::<(i64, Seq<i64>), ParseOrEvalError>((v, lits@)),
        Err(e) => s == Err::<(i64, Seq<i64>), ParseOrEvalError>(e),
    }
}

/// Parse and evaluate a whole answer text: its arithmetic value and the
/// ordered integer literals it consumed, or the failure that stopped it.
pub fn analize(s: &str) -> (r: Result<(i64, Vec<i64>), ParseOrEvalError>)
    ensures
        analyze_matches(r, spec_analyze(s.spec_bytes())),
{
    let b = s.as_bytes();
    match exec_expr(b, 0) {
        Ok((v, lits, pos)) => {
            if pos == b.len() {
                Ok((v, lits))
            } else {
                Err(ParseOrEvalError::TrailingInput)
            }
        },
        Err(e) => Err(e),
    }
}

} // verus!
