//! The language parser: source text to a sequence of `let` statements.
use vstd::prelude::*;
use crate::charclass::{
    char_in_class, chars_of, is_digit, is_ident_start, is_ws, lemma_scan, scan,
    scan_class, skip_ws, substring, CharClass,
};

verus! {

/// An expression of the language.
#[derive(Debug, PartialEq, Eq)]
pub enum Expr {
    Number(i64),
    Text(String),
    Variable(String),
    Add(Box<Expr>, Box<Expr>),
}

/// A statement of the language: `let name = expression;`.
#[derive(Debug, PartialEq, Eq)]
pub enum Statement {
    Let(String, Expr),
}

/// The mathematical value of an `Expr`, with strings as character sequences.
pub enum ExprModel {
    Number(i64),
    Text(Seq<char>),
    Variable(Seq<char>),
    Add(Box<ExprModel>, Box<ExprModel>),
}

/// The mathematical value of a `Statement`.
pub enum StatementModel {
    Let(Seq<char>, ExprModel),
}

pub open spec fn expr_model(e: Expr) -> ExprModel
    decreases e,
{
    match e {
        Expr::Number(n) => ExprModel::Number(n),
        Expr::Text(t) => ExprModel::Text(t@),
        Expr::Variable(v) => ExprModel::Variable(v@),
        Expr::Add(l, r) => ExprModel::Add(Box::new(expr_model(*l)), Box::new(expr_model(*r))),
    }
}

impl View for Expr {
    type V = ExprModel;

    open spec fn view(&self) -> ExprModel {
        expr_model(*self)
    }
}

impl View for Statement {
    type V = StatementModel;

    open spec fn view(&self) -> StatementModel {
        match self {
            Statement::Let(name, e) => StatementModel::Let(name@, e@),
        }
    }
}

pub open spec fn program_model(v: Seq<Statement>) -> Seq<StatementModel> {
    v.map_values(|st: Statement| st@)
}

/// Where parsing stopped: the index (in characters) of the first character
/// at which the input could not be read further. A number too large for an
/// `i64` is reported at its first digit, a text literal without its closing
/// quote at the end of the input.
#[derive(Debug, Clone, Copy, PartialEq, Eq, Structural)]
pub struct ParseError {
    pub position: usize,
}

/// The value of the decimal digits `s[i..j]`.
pub open spec fn digits_value(s: Seq<char>, i: int, j: int) -> int
    decreases j - i,
{
    if j <= i {
        0
    } else {
        digits_value(s, i, j - 1) * 10 + ((s[j - 1] as u32) as int - 48)
    }
}

/// A term that starts at `i` (a non-space character): the term and the
/// position after it and the whitespace that follows.
pub open spec fn parse_term(s: Seq<char>, i: int) -> Result<(ExprModel, int), int> {
    if 0 <= i < s.len() && is_digit(s[i]) {
        let j = scan(s, i, CharClass::Digit);
        let v = digits_value(s, i, j);
        if v <= i64::MAX {
            Ok((ExprModel::Number(v as i64), skip_ws(s, j)))
        } else {
            Err(i)
        }
    } else if 0 <= i < s.len() && s[i] == '"' {
        let j = scan(s, i + 1, CharClass::TextChar);
        if j < s.len() {
            Ok((ExprModel::Text(s.subrange(i + 1, j)), skip_ws(s, j + 1)))
        } else {
            Err(j)
        }
    } else if 0 <= i < s.len() && is_ident_start(s[i]) {
        let j = scan(s, i, CharClass::IdentChar);
        Ok((ExprModel::Variable(s.subrange(i, j)), skip_ws(s, j)))
    } else {
        Err(i)
    }
}

/// The `+ term` repetitions that start at `i`, folded to the left onto `acc`.
pub open spec fn parse_tail(s: Seq<char>, i: int, acc: ExprModel) -> Result<(ExprModel, int), int>
    decreases s.len() - i,
{
    if 0 <= i < s.len() && s[i] == '+' {
        match parse_term(s, skip_ws(s, i + 1)) {
            Ok((t, j)) => if i < j <= s.len() {
                parse_tail(s, j, ExprModel::Add(Box::new(acc), Box::new(t)))
            } else {
                Err(i)
            },
            Err(p) => Err(p),
        }
    } else {
        Ok((acc, i))
    }
}

/// An expression that starts at `i`, after optional whitespace.
pub open spec fn parse_expr(s: Seq<char>, i: int) -> Result<(ExprModel, int), int> {
    match parse_term(s, skip_ws(s, i)) {
        Ok((t, j)) => parse_tail(s, j, t),
        Err(p) => Err(p),
    }
}

/// A `let` statement that starts at `i`: the statement and the position
/// after its `;`.
pub open spec fn parse_let(s: Seq<char>, i: int) -> Result<(StatementModel, int), int> {
    if 0 <= i && i + 3 < s.len() && s[i] == 'l' && s[i + 1] == 'e' && s[i + 2] == 't' && is_ws(
        s[i + 3],
    ) {
        let a = skip_ws(s, i + 3);
        if a < s.len() && is_ident_start(s[a]) {
            let b = scan(s, a, CharClass::IdentChar);
            let c = skip_ws(s, b);
            if c < s.len() && s[c] == '=' {
                match parse_expr(s, c + 1) {
                    Ok((e, d)) => if d < s.len() && s[d] == ';' {
                        Ok((StatementModel::Let(s.subrange(a, b), e), d + 1))
                    } else {
                        Err(d)
                    },
                    Err(p) => Err(p),
                }
            } else {
                Err(c)
            }
        } else {
            Err(a)
        }
    } else {
        Err(i)
    }
}

/// The statements from `i` to the end, each followed by any run of
/// whitespace and `;`.
pub open spec fn parse_statements(s: Seq<char>, i: int) -> Result<Seq<StatementModel>, int>
    decreases s.len() - i,
{
    if i >= s.len() {
        Ok(Seq::empty())
    } else {
        match parse_let(s, i) {
            Ok((st, j)) => {
                let k = scan(s, j, CharClass::Separator);
                if i < k <= s.len() {
                    match parse_statements(s, k) {
                        Ok(rest) => Ok(seq![st] + rest),
                        Err(p) => Err(p),
                    }
                } else {
                    Err(i)
                }
            },
            Err(p) => Err(p),
        }
    }
}

/// The program that the whole of `s` spells, or the position of the first
/// character at which it cannot be read.
pub open spec fn parse_program(s: Seq<char>) -> Result<Seq<StatementModel>, int> {
    parse_statements(s, skip_ws(s, 0))
}

/// `p` in front of the statements of `o`, or the error of `o`.
pub open spec fn prepend<A>(p: Seq<A>, o: Result<Seq<A>, int>) -> Result<Seq<A>, int> {
    match o {
        Ok(r) => Ok(p + r),
        Err(e) => Err(e),
    }
}

/// Parses a run of digits into an `i64`; `None` when the value does not fit.
fn parse_number(s: &Vec<char>, i: usize, j: usize) -> (r: Option<i64>)
    requires
        i <= j <= s@.len(),
        forall|m: int| i <= m < j ==> is_digit(#[trigger] s@[m]),
    ensures
        r is Some <==> digits_value(s@, i as int, j as int) <= i64::MAX,
        r is Some ==> r->0 as int == digits_value(s@, i as int, j as int),
{
    let mut v: i64 = 0;
    let mut k = i;
    while k < j
        invariant
            i <= k <= j <= s@.len(),
            forall|m: int| i <= m < j ==> is_digit(#[trigger] s@[m]),
            v as int == digits_value(s@, i as int, k as int),
            0 <= v,
        decreases j - k,
    {
        let d = ((s[k] as u32) - 48) as i64;
        assert(is_digit(s@[k as int]));
        if v > (i64::MAX - d) / 10 {
            proof {
                lemma_digits_grow(s@, i as int, k as int + 1, j as int);
            }
            return None;
        }
        v = v * 10 + d;
        k = k + 1;
    }
    Some(v)
}

/// More digits never make a smaller value.
proof fn lemma_digits_grow(s: Seq<char>, i: int, k: int, j: int)
    requires
        i <= k <= j <= s.len(),
        forall|m: int| i <= m < j ==> is_digit(#[trigger] s[m]),
    ensures
        digits_value(s, i, k) <= digits_value(s, i, j),
    decreases j - k,
{
    if k < j {
        lemma_digits_grow(s, i, k, j - 1);
        assert(is_digit(s[j - 1]));
        lemma_digits_nonneg(s, i, j - 1);
    }
}

proof fn lemma_digits_nonneg(s: Seq<char>, i: int, j: int)
    requires
        i <= j <= s.len(),
        forall|m: int| i <= m < j ==> is_digit(#[trigger] s[m]),
    ensures
        0 <= digits_value(s, i, j),
    decreases j - i,
{
    if i < j {
        lemma_digits_nonneg(s, i, j - 1);
        assert(is_digit(s[j - 1]));
    }
}

/// The positions that the spec parsers return never go back or past the end.
proof fn lemma_term_advances(s: Seq<char>, i: int)
    requires
        0 <= i <= s.len(),
    ensures
        parse_term(s, i) matches Ok((_, j)) ==> i < j <= s.len(),
{
    if 0 <= i < s.len() && is_digit(s[i]) {
        lemma_scan(s, i, CharClass::Digit);
        lemma_scan(s, scan(s, i, CharClass::Digit), CharClass::Space);
    } else if 0 <= i < s.len() && s[i] == '"' {
        lemma_scan(s, i + 1, CharClass::TextChar);
        let j = scan(s, i + 1, CharClass::TextChar);
        if j < s.len() {
            lemma_scan(s, j + 1, CharClass::Space);
        }
    } else if 0 <= i < s.len() && is_ident_start(s[i]) {
        lemma_scan(s, i, CharClass::IdentChar);
        lemma_scan(s, scan(s, i, CharClass::IdentChar), CharClass::Space);
    }
}

fn parse_term_exec(src: &str, s: &Vec<char>, i: usize) -> (r: Result<(Expr, usize), ParseError>)
    requires
        s@ == src@,
        i <= s@.len(),
    ensures
        match r {
            Ok((e, j)) => parse_term(s@, i as int) == Ok::<(ExprModel, int), int>((e@, j as int)),
            Err(err) => parse_term(s@, i as int) == Err::<(ExprModel, int), int>(err.position as int),
        },
{
    proof {
        lemma_term_advances(s@, i as int);
    }
    if i < s.len() && char_is_digit(s[i]) {
        let j = scan_class(s, i, CharClass::Digit);
        proof {
            lemma_scan(s@, i as int, CharClass::Digit);
        }
        match parse_number(s, i, j) {
            Some(v) => Ok((Expr::Number(v), scan_class(s, j, CharClass::Space))),
            None => Err(ParseError { position: i }),
        }
    } else if i < s.len() && s[i] == '"' {
        let j = scan_class(s, i + 1, CharClass::TextChar);
        if j < s.len() {
            let t = substring(src, i + 1, j);
            Ok((Expr::Text(t), scan_class(s, j + 1, CharClass::Space)))
        } else {
            Err(ParseError { position: j })
        }
    } else if i < s.len() && char_is_ident_start(s[i]) {
        let j = scan_class(s, i, CharClass::IdentChar);
        let name = substring(src, i, j);
        Ok((Expr::Variable(name), scan_class(s, j, CharClass::Space)))
    } else {
        Err(ParseError { position: i })
    }
}

fn char_is_digit(c: char) -> (r: bool)
    ensures
        r == is_digit(c),
{
    '0' <= c && c <= '9'
}

fn char_is_ident_start(c: char) -> (r: bool)
    ensures
        r == is_ident_start(c),
{
    ('a' <= c && c <= 'z') || ('A' <= c && c <= 'Z') || c == '_'
}

fn parse_expr_exec(src: &str, s: &Vec<char>, i: usize) -> (r: Result<(Expr, usize), ParseError>)
    requires
        s@ == src@,
        i <= s@.len(),
    ensures
        match r {
            Ok((e, j)) => parse_expr(s@, i as int) == Ok::<(ExprModel, int), int>((e@, j as int))
                && j <= s@.len(),
            Err(err) => parse_expr(s@, i as int) == Err::<(ExprModel, int), int>(err.position as int),
        },
{
    let start = scan_class(s, i, CharClass::Space);
    let (mut acc, mut pos) = match parse_term_exec(src, s, start) {
        Ok(p) => p,
        Err(e) => return Err(e),
    };
    proof {
        lemma_term_advances(s@, start as int);
    }
    while pos < s.len() && s[pos] == '+'
        invariant
            s@ == src@,
            pos <= s@.len(),
            parse_expr(s@, i as int) == parse_tail(s@, pos as int, acc@),
        decreases s@.len() - pos,
    {
        let t0 = scan_class(s, pos + 1, CharClass::Space);
        proof {
            lemma_term_advances(s@, t0 as int);
            lemma_scan(s@, pos + 1, CharClass::Space);
        }
        let (t, j) = match parse_term_exec(src, s, t0) {
            Ok(p) => p,
            Err(e) => return Err(e),
        };
        acc = Expr::Add(Box::new(acc), Box::new(t));
        pos = j;
    }
    Ok((acc, pos))
}

fn parse_let_exec(src: &str, s: &Vec<char>, i: usize) -> (r: Result<(Statement, usize), ParseError>)
    requires
        s@ == src@,
        i <= s@.len(),
    ensures
        match r {
            Ok((st, j)) => parse_let(s@, i as int) == Ok::<(StatementModel, int), int>((st@, j as int))
                && j <= s@.len(),
            Err(err) => parse_let(s@, i as int) == Err::<(StatementModel, int), int>(err.position as int),
        },
{
    if !(i < s.len() && s.len() - i > 3 && s[i] == 'l' && s[i + 1] == 'e' && s[i + 2] == 't' && char_in_class(
        CharClass::Space,
        s[i + 3],
    )) {
        return Err(ParseError { position: i });
    }
    let a = scan_class(s, i + 3, CharClass::Space);
    if !(a < s.len() && char_is_ident_start(s[a])) {
        return Err(ParseError { position: a });
    }
    let b = scan_class(s, a, CharClass::IdentChar);
    let c = scan_class(s, b, CharClass::Space);
    if !(c < s.len() && s[c] == '=') {
        return Err(ParseError { position: c });
    }
    let (e, d) = match parse_expr_exec(src, s, c + 1) {
        Ok(p) => p,
        Err(err) => return Err(err),
    };
    if !(d < s.len() && s[d] == ';') {
        return Err(ParseError { position: d });
    }
    let name = substring(src, a, b);
    Ok((Statement::Let(name, e), d + 1))
}

/// Parses a whole program: any number of `let` statements, with whitespace
/// and `;` between them.
pub fn parse_source(src: &str) -> (r: Result<Vec<Statement>, ParseError>)
    ensures
        match r {
            Ok(v) => parse_program(src@) == Ok::<Seq<StatementModel>, int>(program_model(v@)),
            Err(err) => parse_program(src@) == Err::<Seq<StatementModel>, int>(err.position as int),
        },
{
    let s = chars_of(src);
    let mut pos = scan_class(&s, 0, CharClass::Space);
    let mut out: Vec<Statement> = Vec::new();
    while pos < s.len()
        invariant
            s@ == src@,
            pos <= s@.len(),
            parse_program(s@) == prepend(program_model(out@), parse_statements(s@, pos as int)),
        decreases s@.len() - pos,
    {
        let (st, j) = match parse_let_exec(src, &s, pos) {
            Ok(p) => p,
            Err(err) => return Err(err),
        };
        let k = scan_class(&s, j, CharClass::Separator);
        proof {
            lemma_let_advances(s@, pos as int);
        }
        let ghost old_out = out@;
        out.push(st);
        proof {
            assert(program_model(out@) =~= program_model(old_out) + seq![st@]);
            match parse_statements(s@, k as int) {
                Ok(rest) => {
                    assert(program_model(old_out) + (seq![st@] + rest) =~= program_model(out@)
                        + rest);
                },
                Err(_) => {},
            }
        }
        pos = k;
    }
    assert(parse_statements(s@, pos as int) == Ok::<Seq<StatementModel>, int>(
        Seq::<StatementModel>::empty(),
    ));
    assert(program_model(out@) + Seq::<StatementModel>::empty() =~= program_model(out@));
    Ok(out)
}

proof fn lemma_let_advances(s: Seq<char>, i: int)
    requires
        0 <= i <= s.len(),
    ensures
        parse_let(s, i) matches Ok((_, j)) ==> i < j <= s.len(),
{
    if i + 3 < s.len() {
        lemma_scan(s, i + 3, CharClass::Space);
        let a = skip_ws(s, i + 3);
        lemma_scan(s, a, CharClass::IdentChar);
        let b = scan(s, a, CharClass::IdentChar);
        lemma_scan(s, b, CharClass::Space);
        let c = skip_ws(s, b);
        if c < s.len() {
            lemma_expr_bounds(s, c + 1);
        }
    }
}

proof fn lemma_expr_bounds(s: Seq<char>, i: int)
    requires
        0 <= i <= s.len(),
    ensures
        parse_expr(s, i) matches Ok((_, j)) ==> i < j <= s.len(),
{
    lemma_scan(s, i, CharClass::Space);
    let t0 = skip_ws(s, i);
    lemma_term_advances(s, t0);
    if let Ok((t, j)) = parse_term(s, t0) {
        lemma_tail_bounds(s, j, t);
    }
}

proof fn lemma_tail_bounds(s: Seq<char>, i: int, acc: ExprModel)
    requires
        0 <= i <= s.len(),
    ensures
        parse_tail(s, i, acc) matches Ok((_, j)) ==> i <= j <= s.len(),
    decreases s.len() - i,
{
    if i < s.len() && s[i] == '+' {
        lemma_scan(s, i + 1, CharClass::Space);
        let t0 = skip_ws(s, i + 1);
        lemma_term_advances(s, t0);
        if let Ok((t, j)) = parse_term(s, t0) {
            if i < j <= s.len() {
                lemma_tail_bounds(s, j, ExprModel::Add(Box::new(acc), Box::new(t)));
            }
        }
    }
}

/// Parsing is deterministic: two parses of the same text that both succeed
/// give the same statements.
pub proof fn lemma_parse_deterministic(src: Seq<char>, a: Seq<Statement>, b: Seq<Statement>)
    requires
        parse_program(src) == Ok::<Seq<StatementModel>, int>(program_model(a)),
        parse_program(src) == Ok::<Seq<StatementModel>, int>(program_model(b)),
    ensures
        program_model(a) == program_model(b),
{
}

/// A parser for the language, as a value that can be used repeatedly.
pub struct LanguageParser {}

impl LanguageParser {
    /// Parses a whole program, as `parse_source` does.
    pub fn parse(&self, src: &str) -> (r: Result<Vec<Statement>, ParseError>)
        ensures
            match r {
                Ok(v) => parse_program(src@) == Ok::<Seq<StatementModel>, int>(program_model(v@)),
                Err(err) => parse_program(src@) == Err::<Seq<StatementModel>, int>(err.position as int),
            },
    {
        parse_source(src)
    }
}

/// The parser for the language.
pub fn language_parser() -> (r: LanguageParser) {
    LanguageParser {}
}

} // verus!
