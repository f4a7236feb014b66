//! Arithmetic expressions: `+ - * /` with the usual precedence and left
//! to right, unary signs, parentheses, decimal numbers and named
//! variables. Compiling gives a tree whose numbers are kept as their text
//! and whose variables are found in a list of names; evaluating it is
//! floating-point work that the library leaves to its users.
use vstd::prelude::*;
use vstd::string::{StringExecFns, StringSliceAdditionalSpecFns};
use vstd::utf8::encode_utf8;
use crate::text::{chars_of, first_match, lemma_first_match_bounds, same_text, scan, text_of, Stop};
use crate::json::minify::{byte_offset, byte_pos};

verus! {

/// An expression tree. A number is kept as its text; a variable as its name
/// and the position of the first variable of that name in the list.
#[derive(Debug, PartialEq)]
pub enum ExprTree {
    Constant(String),
    Variable { name: String, index: usize },
    Add(Box<ExprTree>, Box<ExprTree>),
    Subtract(Box<ExprTree>, Box<ExprTree>),
    Multiply(Box<ExprTree>, Box<ExprTree>),
    Divide(Box<ExprTree>, Box<ExprTree>),
    Negate(Box<ExprTree>),
}

/// Why an expression does not compile: the byte position where it went
/// wrong, counted from one, and what went wrong.
#[derive(Debug, Clone, PartialEq, Eq)]
pub struct ParseError {
    pub position: usize,
    pub message: String,
}

/// What went wrong in an expression.
#[derive(Debug, Clone, Copy, PartialEq, Eq)]
pub enum ErrorKind {
    TrailingInput,
    ExpectedCloseParen,
    ExpectedExpression,
    InvalidNumber,
    UnknownVariable,
}

/// The message of an error.
pub open spec fn message_of(k: ErrorKind) -> Seq<char> {
    match k {
        ErrorKind::TrailingInput => "unexpected trailing input"@,
        ErrorKind::ExpectedCloseParen => "expected ')'"@,
        ErrorKind::ExpectedExpression => "expected expression"@,
        ErrorKind::InvalidNumber => "invalid number"@,
        ErrorKind::UnknownVariable => "unknown variable"@,
    }
}

/// An expression tree, as values.
pub enum ExprModel {
    Constant(Seq<char>),
    Variable(Seq<char>, int),
    Add(Box<ExprModel>, Box<ExprModel>),
    Subtract(Box<ExprModel>, Box<ExprModel>),
    Multiply(Box<ExprModel>, Box<ExprModel>),
    Divide(Box<ExprModel>, Box<ExprModel>),
    Negate(Box<ExprModel>),
}

/// The value of an expression tree.
pub open spec fn tree_model(t: ExprTree) -> ExprModel
    decreases t,
{
    match t {
        ExprTree::Constant(text) => ExprModel::Constant(text@),
        ExprTree::Variable { name, index } => ExprModel::Variable(name@, index as int),
        ExprTree::Add(a, b) => ExprModel::Add(Box::new(tree_model(*a)), Box::new(tree_model(*b))),
        ExprTree::Subtract(a, b) => ExprModel::Subtract(Box::new(tree_model(*a)), Box::new(tree_model(*b))),
        ExprTree::Multiply(a, b) => ExprModel::Multiply(Box::new(tree_model(*a)), Box::new(tree_model(*b))),
        ExprTree::Divide(a, b) => ExprModel::Divide(Box::new(tree_model(*a)), Box::new(tree_model(*b))),
        ExprTree::Negate(a) => ExprModel::Negate(Box::new(tree_model(*a))),
    }
}

impl View for ExprTree {
    type V = ExprModel;

    open spec fn view(&self) -> ExprModel {
        tree_model(*self)
    }
}

/// The first position at or after `i` that is not whitespace.
pub open spec fn ws_end(s: Seq<char>, i: int) -> int {
    first_match(s, i, s.len() as int, Stop::NotWhiteSpace)
}

/// Whether `c` can be part of a number: a digit or a point.
pub open spec fn is_number_char(c: char) -> bool {
    ('0' <= c <= '9') || c == '.'
}

/// Whether a name can start with `c`: an ASCII letter or `_`.
pub open spec fn is_name_start(c: char) -> bool {
    ('a' <= c <= 'z') || ('A' <= c <= 'Z') || c == '_'
}

/// Whether a name can go on with `c`: an ASCII letter or digit, or `_`.
pub open spec fn is_name_char(c: char) -> bool {
    is_name_start(c) || ('0' <= c <= '9')
}

/// The end of the run of number characters (or of name characters) that
/// starts at `i`.
pub open spec fn run_end(s: Seq<char>, i: int, number: bool) -> int
    decreases s.len() - i,
{
    if 0 <= i < s.len() && (if number { is_number_char(s[i]) } else { is_name_char(s[i]) }) {
        run_end(s, i + 1, number)
    } else {
        i
    }
}

/// How many of the first `n` characters are points, and how many digits.
pub open spec fn point_and_digit_counts(t: Seq<char>, n: int) -> (int, int)
    decreases n,
{
    if n <= 0 {
        (0, 0)
    } else {
        let (p, d) = point_and_digit_counts(t, n - 1);
        if t[n - 1] == '.' {
            (p + 1, d)
        } else if '0' <= t[n - 1] <= '9' {
            (p, d + 1)
        } else {
            (p, d)
        }
    }
}

/// Whether `f64::from_str` reads text made of digits and points: as its
/// documented grammar has it, one point at most and one digit at least.
pub open spec fn number_text_ok(t: Seq<char>) -> bool {
    point_and_digit_counts(t, t.len() as int).0 <= 1 && point_and_digit_counts(t, t.len() as int).1 >= 1
}

/// The first position at or after `from` of `name` in `names`, or the
/// number of names.
pub open spec fn first_name(names: Seq<Seq<char>>, name: Seq<char>, from: int) -> int
    decreases names.len() - from,
{
    if from < 0 || from >= names.len() {
        names.len() as int
    } else if names[from] == name {
        from
    } else {
        first_name(names, name, from + 1)
    }
}

/// A factor at `i`: signs, a parenthesized sum, a number or a variable.
pub open spec fn factor_at(s: Seq<char>, names: Seq<Seq<char>>, i: int) -> Result<(ExprModel, int), (int, ErrorKind)>
    decreases s.len() - i, 0int,
{
    if i < 0 || i > s.len() {
        Err((i, ErrorKind::ExpectedExpression))
    } else {
        let j = ws_end(s, i);
        proof {
            lemma_first_match_bounds(s, i, s.len() as int, Stop::NotWhiteSpace);
        }
        if j < s.len() && s[j] == '+' {
            factor_at(s, names, j + 1)
        } else if j < s.len() && s[j] == '-' {
            match factor_at(s, names, j + 1) {
                Ok((e, k)) => Ok((ExprModel::Negate(Box::new(e)), k)),
                Err(x) => Err(x),
            }
        } else if j < s.len() && s[j] == '(' {
            match sum_at(s, names, j + 1) {
                Err(x) => Err(x),
                Ok((e, k)) => if 0 <= k <= s.len() && ws_end(s, k) < s.len() && s[ws_end(s, k)] == ')' {
                    Ok((e, ws_end(s, k) + 1))
                } else {
                    Err((ws_end(s, k), ErrorKind::ExpectedCloseParen))
                },
            }
        } else if j < s.len() && is_number_char(s[j]) {
            let e = run_end(s, j, true);
            if number_text_ok(s.subrange(j, e)) {
                Ok((ExprModel::Constant(s.subrange(j, e)), e))
            } else {
                Err((e, ErrorKind::InvalidNumber))
            }
        } else if j < s.len() && is_name_start(s[j]) {
            let e = run_end(s, j, false);
            let x = first_name(names, s.subrange(j, e), 0);
            if 0 <= x < names.len() {
                Ok((ExprModel::Variable(s.subrange(j, e), x), e))
            } else {
                Err((j, ErrorKind::UnknownVariable))
            }
        } else {
            Err((j, ErrorKind::ExpectedExpression))
        }
    }
}

/// A product at `i`: factors joined by `*` and `/`, from the left.
pub open spec fn product_at(s: Seq<char>, names: Seq<Seq<char>>, i: int) -> Result<(ExprModel, int), (int, ErrorKind)>
    decreases s.len() - i, 1int,
{
    match factor_at(s, names, i) {
        Err(x) => Err(x),
        Ok((e, k)) => if k <= i || k > s.len() {
            Err((k, ErrorKind::ExpectedExpression))
        } else {
            product_rest(s, names, k, e)
        },
    }
}

/// The rest of a product after the factors read so far, `acc`, at `k`.
pub open spec fn product_rest(s: Seq<char>, names: Seq<Seq<char>>, k: int, acc: ExprModel) -> Result<(ExprModel, int), (int, ErrorKind)>
    decreases s.len() - k, 2int,
{
    if k < 0 || k > s.len() {
        Err((k, ErrorKind::ExpectedExpression))
    } else {
        let j = ws_end(s, k);
        proof {
            lemma_first_match_bounds(s, k, s.len() as int, Stop::NotWhiteSpace);
        }
        if j < s.len() && (s[j] == '*' || s[j] == '/') {
            match factor_at(s, names, j + 1) {
                Err(x) => Err(x),
                Ok((f, k2)) => if k2 <= k || k2 > s.len() {
                    Err((k2, ErrorKind::ExpectedExpression))
                } else if s[j] == '*' {
                    product_rest(s, names, k2, ExprModel::Multiply(Box::new(acc), Box::new(f)))
                } else {
                    product_rest(s, names, k2, ExprModel::Divide(Box::new(acc), Box::new(f)))
                },
            }
        } else {
            Ok((acc, j))
        }
    }
}

/// A sum at `i`: products joined by `+` and `-`, from the left.
pub open spec fn sum_at(s: Seq<char>, names: Seq<Seq<char>>, i: int) -> Result<(ExprModel, int), (int, ErrorKind)>
    decreases s.len() - i, 3int,
{
    match product_at(s, names, i) {
        Err(x) => Err(x),
        Ok((e, k)) => if k <= i || k > s.len() {
            Err((k, ErrorKind::ExpectedExpression))
        } else {
            sum_rest(s, names, k, e)
        },
    }
}

/// The rest of a sum after the products read so far, `acc`, at `k`.
pub open spec fn sum_rest(s: Seq<char>, names: Seq<Seq<char>>, k: int, acc: ExprModel) -> Result<(ExprModel, int), (int, ErrorKind)>
    decreases s.len() - k, 4int,
{
    if k < 0 || k > s.len() {
        Err((k, ErrorKind::ExpectedExpression))
    } else {
        let j = ws_end(s, k);
        proof {
            lemma_first_match_bounds(s, k, s.len() as int, Stop::NotWhiteSpace);
        }
        if j < s.len() && (s[j] == '+' || s[j] == '-') {
            match product_at(s, names, j + 1) {
                Err(x) => Err(x),
                Ok((f, k2)) => if k2 <= k || k2 > s.len() {
                    Err((k2, ErrorKind::ExpectedExpression))
                } else if s[j] == '+' {
                    sum_rest(s, names, k2, ExprModel::Add(Box::new(acc), Box::new(f)))
                } else {
                    sum_rest(s, names, k2, ExprModel::Subtract(Box::new(acc), Box::new(f)))
                },
            }
        } else {
            Ok((acc, j))
        }
    }
}

/// What compiling an expression gives: one sum, then nothing but
/// whitespace; or where it went wrong and how.
pub open spec fn expression_value(s: Seq<char>, names: Seq<Seq<char>>) -> Result<ExprModel, (int, ErrorKind)> {
    match sum_at(s, names, 0) {
        Err(x) => Err(x),
        Ok((e, k)) => if 0 <= k <= s.len() && ws_end(s, k) == s.len() {
            Ok(e)
        } else {
            Err((ws_end(s, k), ErrorKind::TrailingInput))
        },
    }
}

/// The names of a list of variable names, as values.
pub open spec fn names_view(names: Seq<&str>) -> Seq<Seq<char>> {
    names.map_values(|n: &str| n@)
}

/// The error at character `i` of `s`: its byte position counted from one.
pub open spec fn error_value(s: Seq<char>, x: (int, ErrorKind)) -> (int, Seq<char>) {
    (byte_pos(s, x.0) + 1, message_of(x.1))
}

/// A run ends at or after where it starts, and within the text.
pub proof fn lemma_run_end(s: Seq<char>, i: int, number: bool)
    requires
        0 <= i <= s.len(),
    ensures
        i <= run_end(s, i, number) <= s.len(),
    decreases s.len() - i,
{
    if i < s.len() && (if number { is_number_char(s[i]) } else { is_name_char(s[i]) }) {
        lemma_run_end(s, i + 1, number);
    }
}

/// A factor ends after it starts, within the text.
pub proof fn lemma_factor_advances(s: Seq<char>, names: Seq<Seq<char>>, i: int)
    ensures
        factor_at(s, names, i) matches Ok((_, k)) ==> i < k <= s.len(),
    decreases s.len() - i, 0int,
{
    if 0 <= i <= s.len() {
        lemma_first_match_bounds(s, i, s.len() as int, Stop::NotWhiteSpace);
        let j = ws_end(s, i);
        if j < s.len() && (s[j] == '+' || s[j] == '-') {
            lemma_factor_advances(s, names, j + 1);
        } else if j < s.len() && s[j] == '(' {
            lemma_sum_advances(s, names, j + 1);
            match sum_at(s, names, j + 1) {
                Ok((_, k)) => {
                    lemma_first_match_bounds(s, k, s.len() as int, Stop::NotWhiteSpace);
                },
                Err(_) => {},
            }
        } else if j < s.len() && is_number_char(s[j]) {
            lemma_run_end(s, j + 1, true);
        } else if j < s.len() && is_name_start(s[j]) {
            lemma_run_end(s, j + 1, false);
        }
    }
}

/// The rest of a product ends at or after where it starts, within the text.
pub proof fn lemma_product_rest_bounds(s: Seq<char>, names: Seq<Seq<char>>, k: int, acc: ExprModel)
    ensures
        product_rest(s, names, k, acc) matches Ok((_, e)) ==> k <= e <= s.len(),
    decreases s.len() - k, 2int,
{
    if 0 <= k <= s.len() {
        lemma_first_match_bounds(s, k, s.len() as int, Stop::NotWhiteSpace);
        let j = ws_end(s, k);
        if j < s.len() && (s[j] == '*' || s[j] == '/') {
            match factor_at(s, names, j + 1) {
                Ok((f, k2)) => {
                    if k < k2 <= s.len() {
                        lemma_product_rest_bounds(s, names, k2, ExprModel::Multiply(Box::new(acc), Box::new(f)));
                        lemma_product_rest_bounds(s, names, k2, ExprModel::Divide(Box::new(acc), Box::new(f)));
                    }
                },
                Err(_) => {},
            }
        }
    }
}

/// A product ends after it starts, within the text.
pub proof fn lemma_product_advances(s: Seq<char>, names: Seq<Seq<char>>, i: int)
    ensures
        product_at(s, names, i) matches Ok((_, k)) ==> i < k <= s.len(),
    decreases s.len() - i, 1int,
{
    lemma_factor_advances(s, names, i);
    match factor_at(s, names, i) {
        Ok((e, k)) => lemma_product_rest_bounds(s, names, k, e),
        Err(_) => {},
    }
}

/// The rest of a sum ends at or after where it starts, within the text.
pub proof fn lemma_sum_rest_bounds(s: Seq<char>, names: Seq<Seq<char>>, k: int, acc: ExprModel)
    ensures
        sum_rest(s, names, k, acc) matches Ok((_, e)) ==> k <= e <= s.len(),
    decreases s.len() - k, 4int,
{
    if 0 <= k <= s.len() {
        lemma_first_match_bounds(s, k, s.len() as int, Stop::NotWhiteSpace);
        let j = ws_end(s, k);
        if j < s.len() && (s[j] == '+' || s[j] == '-') {
            match product_at(s, names, j + 1) {
                Ok((f, k2)) => {
                    if k < k2 <= s.len() {
                        lemma_sum_rest_bounds(s, names, k2, ExprModel::Add(Box::new(acc), Box::new(f)));
                        lemma_sum_rest_bounds(s, names, k2, ExprModel::Subtract(Box::new(acc), Box::new(f)));
                    }
                },
                Err(_) => {},
            }
        }
    }
}

/// A sum ends after it starts, within the text.
pub proof fn lemma_sum_advances(s: Seq<char>, names: Seq<Seq<char>>, i: int)
    ensures
        sum_at(s, names, i) matches Ok((_, k)) ==> i < k <= s.len(),
    decreases s.len() - i, 3int,
{
    lemma_product_advances(s, names, i);
    match product_at(s, names, i) {
        Ok((e, k)) => lemma_sum_rest_bounds(s, names, k, e),
        Err(_) => {},
    }
}

/// The operators and operands that follow a first operand at `k`: each is
/// an operator (`true` for the first of `ops`, `false` for the second) and
/// the operand read after it by `operand`, a factor for a product and a
/// product for a sum; and where the last of them ends.
pub open spec fn operand_chain(s: Seq<char>, names: Seq<Seq<char>>, k: int, ops: (char, char), sums: bool) -> Result<(Seq<(bool, ExprModel)>, int), (int, ErrorKind)>
    decreases s.len() - k,
{
    if k < 0 || k > s.len() {
        Err((k, ErrorKind::ExpectedExpression))
    } else {
        let j = ws_end(s, k);
        proof {
            lemma_first_match_bounds(s, k, s.len() as int, Stop::NotWhiteSpace);
        }
        if j < s.len() && (s[j] == ops.0 || s[j] == ops.1) {
            let operand = if sums { product_at(s, names, j + 1) } else { factor_at(s, names, j + 1) };
            match operand {
                Err(x) => Err(x),
                Ok((f, k2)) => if k2 <= k || k2 > s.len() {
                    Err((k2, ErrorKind::ExpectedExpression))
                } else {
                    match operand_chain(s, names, k2, ops, sums) {
                        Err(x) => Err(x),
                        Ok((c, e)) => Ok((seq![(s[j] == ops.0, f)] + c, e)),
                    }
                },
            }
        } else {
            Ok((Seq::empty(), j))
        }
    }
}

/// Joins `acc` with each operand of `chain` in turn, from the left: the
/// tree so far is always the left operand of the next operator.
pub open spec fn join_left(acc: ExprModel, chain: Seq<(bool, ExprModel)>, sums: bool) -> ExprModel
    decreases chain.len(),
{
    if chain.len() == 0 {
        acc
    } else {
        let (first, f) = chain[0];
        let joined = if sums {
            if first { ExprModel::Add(Box::new(acc), Box::new(f)) } else { ExprModel::Subtract(Box::new(acc), Box::new(f)) }
        } else {
            if first { ExprModel::Multiply(Box::new(acc), Box::new(f)) } else { ExprModel::Divide(Box::new(acc), Box::new(f)) }
        };
        join_left(joined, chain.drop_first(), sums)
    }
}

/// A chain read as a result: the operands joined from the left onto `acc`.
pub open spec fn joined_chain(acc: ExprModel, r: Result<(Seq<(bool, ExprModel)>, int), (int, ErrorKind)>, sums: bool) -> Result<(ExprModel, int), (int, ErrorKind)> {
    match r {
        Ok((c, e)) => Ok((join_left(acc, c, sums), e)),
        Err(x) => Err(x),
    }
}

/// Products group from the left: after a first factor `acc`, the factors
/// joined by `*` and `/` are applied one by one in the order they are
/// written, so `a / b / c` is `(a / b) / c`.
pub proof fn law_product_left_to_right(s: Seq<char>, names: Seq<Seq<char>>, k: int, acc: ExprModel)
    ensures
        product_rest(s, names, k, acc) == joined_chain(acc, operand_chain(s, names, k, ('*', '/'), false), false),
    decreases s.len() - k,
{
    if 0 <= k <= s.len() {
        lemma_first_match_bounds(s, k, s.len() as int, Stop::NotWhiteSpace);
        let j = ws_end(s, k);
        if j < s.len() && (s[j] == '*' || s[j] == '/') {
            match factor_at(s, names, j + 1) {
                Ok((f, k2)) => {
                    if k < k2 <= s.len() {
                        let next = if s[j] == '*' {
                            ExprModel::Multiply(Box::new(acc), Box::new(f))
                        } else {
                            ExprModel::Divide(Box::new(acc), Box::new(f))
                        };
                        law_product_left_to_right(s, names, k2, next);
                        match operand_chain(s, names, k2, ('*', '/'), false) {
                            Ok((c, e)) => {
                                let whole = seq![(s[j] == '*', f)] + c;
                                assert(whole.drop_first() =~= c);
                                assert(whole[0] == (s[j] == '*', f));
                            },
                            Err(_) => {},
                        }
                    }
                },
                Err(_) => {},
            }
        }
    }
}

/// Sums group from the left: after a first product `acc`, the products
/// joined by `+` and `-` are applied one by one in the order they are
/// written, so `a - b - c` is `(a - b) - c`.
pub proof fn law_sum_left_to_right(s: Seq<char>, names: Seq<Seq<char>>, k: int, acc: ExprModel)
    ensures
        sum_rest(s, names, k, acc) == joined_chain(acc, operand_chain(s, names, k, ('+', '-'), true), true),
    decreases s.len() - k,
{
    if 0 <= k <= s.len() {
        lemma_first_match_bounds(s, k, s.len() as int, Stop::NotWhiteSpace);
        let j = ws_end(s, k);
        if j < s.len() && (s[j] == '+' || s[j] == '-') {
            match product_at(s, names, j + 1) {
                Ok((f, k2)) => {
                    if k < k2 <= s.len() {
                        let next = if s[j] == '+' {
                            ExprModel::Add(Box::new(acc), Box::new(f))
                        } else {
                            ExprModel::Subtract(Box::new(acc), Box::new(f))
                        };
                        law_sum_left_to_right(s, names, k2, next);
                        match operand_chain(s, names, k2, ('+', '-'), true) {
                            Ok((c, e)) => {
                                let whole = seq![(s[j] == '+', f)] + c;
                                assert(whole.drop_first() =~= c);
                                assert(whole[0] == (s[j] == '+', f));
                            },
                            Err(_) => {},
                        }
                    }
                },
                Err(_) => {},
            }
        }
    }
}

/// Skips whitespace from `i`.
fn skip_white(s: &Vec<char>, i: usize) -> (r: usize)
    requires
        i <= s@.len(),
    ensures
        r as int == ws_end(s@, i as int),
        i <= r <= s@.len(),
{
    scan(s, i, s.len(), &Stop::NotWhiteSpace)
}

/// Whether `c` goes on a run of number (or name) characters.
fn in_run(c: char, number: bool) -> (r: bool)
    ensures
        r == (if number { is_number_char(c) } else { is_name_char(c) }),
{
    if number {
        ('0' <= c && c <= '9') || c == '.'
    } else {
        ('a' <= c && c <= 'z') || ('A' <= c && c <= 'Z') || c == '_' || ('0' <= c && c <= '9')
    }
}

/// Finds the end of the run of number (or name) characters at `i`.
fn run(s: &Vec<char>, i: usize, number: bool) -> (r: usize)
    requires
        i <= s@.len(),
    ensures
        r as int == run_end(s@, i as int, number),
        i <= r <= s@.len(),
{
    let mut k = i;
    while k < s.len() && in_run(s[k], number)
        invariant
            i <= k <= s@.len(),
            run_end(s@, i as int, number) == run_end(s@, k as int, number),
        decreases s@.len() - k,
    {
        k += 1;
    }
    k
}

/// Whether `s[a..b]` has one point at most and one digit at least.
fn number_ok(s: &Vec<char>, a: usize, b: usize) -> (r: bool)
    requires
        a <= b <= s@.len(),
    ensures
        r == number_text_ok(s@.subrange(a as int, b as int)),
{
    let ghost t = s@.subrange(a as int, b as int);
    let mut points: usize = 0;
    let mut digits: usize = 0;
    let mut k = a;
    while k < b
        invariant
            a <= k <= b <= s@.len(),
            t == s@.subrange(a as int, b as int),
            point_and_digit_counts(t, k - a) == (points as int, digits as int),
            points + digits <= k - a,
        decreases b - k,
    {
        let c = s[k];
        assert(t[k - a] == c);
        if c == '.' {
            points += 1;
        } else if '0' <= c && c <= '9' {
            digits += 1;
        }
        k += 1;
    }
    points <= 1 && digits >= 1
}

/// The first position of `name` in `names`, or the number of names.
fn find_name(names: &[&str], name: &str) -> (r: usize)
    ensures
        r as int == first_name(names_view(names@), name@, 0),
        r <= names@.len(),
{
    let ghost nv = names_view(names@);
    let mut k: usize = 0;
    while k < names.len()
        invariant
            nv == names_view(names@),
            k <= names@.len(),
            first_name(nv, name@, 0) == first_name(nv, name@, k as int),
        decreases names@.len() - k,
    {
        if same_text(names[k], name) {
            return k;
        }
        k += 1;
    }
    k
}

/// The error at character `i`, with its byte position counted from one.
fn error_at(s: &Vec<char>, i: usize, total: usize, kind: ErrorKind) -> (e: ParseError)
    requires
        i <= s@.len(),
        encode_utf8(s@).len() == total,
        total < usize::MAX,
    ensures
        e.position == byte_pos(s@, i as int) + 1,
        e.message@ == message_of(kind),
{
    let at = byte_offset(s, i, total);
    proof {
        crate::json::minify::lemma_byte_pos_bound(s@, i as int);
    }
    let message = match kind {
        ErrorKind::TrailingInput => String::from_str("unexpected trailing input"),
        ErrorKind::ExpectedCloseParen => String::from_str("expected ')'"),
        ErrorKind::ExpectedExpression => String::from_str("expected expression"),
        ErrorKind::InvalidNumber => String::from_str("invalid number"),
        ErrorKind::UnknownVariable => String::from_str("unknown variable"),
    };
    ParseError { position: at + 1, message }
}

/// Reads the factor at `i`.
fn read_factor(s: &Vec<char>, names: &[&str], i: usize) -> (r: Result<(ExprTree, usize), (usize, ErrorKind)>)
    requires
        i <= s@.len(),
    ensures
        match factor_at(s@, names_view(names@), i as int) {
            Ok((m, k)) => (r matches Ok((t, k2)) && t@ == m && k2 == k),
            Err(x) => (r matches Err((p, kind)) && p == x.0 && kind == x.1),
        },
        r matches Err((p, _)) ==> p <= s@.len(),
    decreases s@.len() - i, 0int,
{
    let n = s.len();
    let j = skip_white(s, i);
    if j < n && s[j] == '+' {
        return read_factor(s, names, j + 1);
    }
    if j < n && s[j] == '-' {
        return match read_factor(s, names, j + 1) {
            Ok((t, k)) => Ok((ExprTree::Negate(Box::new(t)), k)),
            Err(x) => Err(x),
        };
    }
    if j < n && s[j] == '(' {
        proof {
            lemma_sum_advances(s@, names_view(names@), j + 1);
        }
        return match read_sum(s, names, j + 1) {
            Err(x) => Err(x),
            Ok((t, k)) => {
                let k2 = skip_white(s, k);
                if k2 < n && s[k2] == ')' {
                    Ok((t, k2 + 1))
                } else {
                    Err((k2, ErrorKind::ExpectedCloseParen))
                }
            },
        };
    }
    if j < n && (('0' <= s[j] && s[j] <= '9') || s[j] == '.') {
        let e = run(s, j, true);
        if number_ok(s, j, e) {
            return Ok((ExprTree::Constant(text_of(s, j, e)), e));
        }
        return Err((e, ErrorKind::InvalidNumber));
    }
    if j < n && (('a' <= s[j] && s[j] <= 'z') || ('A' <= s[j] && s[j] <= 'Z') || s[j] == '_') {
        let e = run(s, j, false);
        let name = text_of(s, j, e);
        let x = find_name(names, name.as_str());
        if x < names.len() {
            return Ok((ExprTree::Variable { name, index: x }, e));
        }
        return Err((j, ErrorKind::UnknownVariable));
    }
    Err((j, ErrorKind::ExpectedExpression))
}

/// Reads the product at `i`.
fn read_product(s: &Vec<char>, names: &[&str], i: usize) -> (r: Result<(ExprTree, usize), (usize, ErrorKind)>)
    requires
        i <= s@.len(),
    ensures
        match product_at(s@, names_view(names@), i as int) {
            Ok((m, k)) => (r matches Ok((t, k2)) && t@ == m && k2 == k),
            Err(x) => (r matches Err((p, kind)) && p == x.0 && kind == x.1),
        },
        r matches Err((p, _)) ==> p <= s@.len(),
    decreases s@.len() - i, 1int,
{
    let ghost nv = names_view(names@);
    proof {
        lemma_factor_advances(s@, nv, i as int);
    }
    let (mut acc, mut k) = match read_factor(s, names, i) {
        Ok(v) => v,
        Err(x) => {
            return Err(x);
        },
    };
    let ghost whole = product_at(s@, nv, i as int);
    loop
        invariant
            nv == names_view(names@),
            i < k <= s@.len(),
            whole == product_at(s@, nv, i as int),
            whole == product_rest(s@, nv, k as int, acc@),
        decreases s@.len() - k,
    {
        let j = skip_white(s, k);
        if j < s.len() && (s[j] == '*' || s[j] == '/') {
            proof {
                lemma_factor_advances(s@, nv, j + 1);
            }
            let (f, k2) = match read_factor(s, names, j + 1) {
                Ok(v) => v,
                Err(x) => {
                    return Err(x);
                },
            };
            acc = if s[j] == '*' {
                ExprTree::Multiply(Box::new(acc), Box::new(f))
            } else {
                ExprTree::Divide(Box::new(acc), Box::new(f))
            };
            k = k2;
        } else {
            return Ok((acc, j));
        }
    }
}

/// Reads the sum at `i`.
fn read_sum(s: &Vec<char>, names: &[&str], i: usize) -> (r: Result<(ExprTree, usize), (usize, ErrorKind)>)
    requires
        i <= s@.len(),
    ensures
        match sum_at(s@, names_view(names@), i as int) {
            Ok((m, k)) => (r matches Ok((t, k2)) && t@ == m && k2 == k),
            Err(x) => (r matches Err((p, kind)) && p == x.0 && kind == x.1),
        },
        r matches Err((p, _)) ==> p <= s@.len(),
    decreases s@.len() - i, 3int,
{
    let ghost nv = names_view(names@);
    proof {
        lemma_product_advances(s@, nv, i as int);
    }
    let (mut acc, mut k) = match read_product(s, names, i) {
        Ok(v) => v,
        Err(x) => {
            return Err(x);
        },
    };
    let ghost whole = sum_at(s@, nv, i as int);
    loop
        invariant
            nv == names_view(names@),
            i < k <= s@.len(),
            whole == sum_at(s@, nv, i as int),
            whole == sum_rest(s@, nv, k as int, acc@),
        decreases s@.len() - k,
    {
        let j = skip_white(s, k);
        if j < s.len() && (s[j] == '+' || s[j] == '-') {
            proof {
                lemma_product_advances(s@, nv, j + 1);
            }
            let (f, k2) = match read_product(s, names, j + 1) {
                Ok(v) => v,
                Err(x) => {
                    return Err(x);
                },
            };
            acc = if s[j] == '+' {
                ExprTree::Add(Box::new(acc), Box::new(f))
            } else {
                ExprTree::Subtract(Box::new(acc), Box::new(f))
            };
            k = k2;
        } else {
            return Ok((acc, j));
        }
    }
}

/// Compiles an expression whose variables are named by `names`. An error
/// gives the byte position where reading went wrong, counted from one.
pub fn compile(expression: &str, names: &[&str]) -> (r: Result<ExprTree, ParseError>)
    requires
        expression.spec_bytes().len() < usize::MAX,
    ensures
        match expression_value(expression@, names_view(names@)) {
            Ok(m) => (r matches Ok(t) && t@ == m),
            Err(x) => (r matches Err(e) && e.position == byte_pos(expression@, x.0) + 1 && e.message@ == message_of(x.1)),
        },
{
    let s = chars_of(expression);
    let total = expression.as_bytes().len();
    proof {
        lemma_sum_advances(s@, names_view(names@), 0);
    }
    let (t, k) = match read_sum(&s, names, 0) {
        Ok(v) => v,
        Err((p, kind)) => {
            return Err(error_at(&s, p, total, kind));
        },
    };
    let j = skip_white(&s, k);
    if j == s.len() {
        Ok(t)
    } else {
        Err(error_at(&s, j, total, ErrorKind::TrailingInput))
    }
}

} // verus!
