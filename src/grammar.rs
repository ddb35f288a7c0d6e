//! The grammar describer: reads rules written as `name ::= symbols | symbols`
//! into a structured list.
//!
//! A choice keeps the symbols of all its alternatives in one flat list, in
//! order: `a ::= B C | D E` gives `Choice([B, C, D, E])`, so the grouping of
//! the alternatives is not kept. A rule with one alternative is a `Sequence`.
//! `Repetition` and `Optional` are part of the format, but no notation
//! produces them yet.
use vstd::prelude::*;
use crate::parser::ParseError;
use crate::charclass::{
    chars_of, is_ident_start, lemma_scan, scan, scan_class, skip_ws,
    substring, CharClass,
};

verus! {

/// A grammar: its rules, in the order written.
#[derive(Debug, PartialEq, Eq)]
pub struct Grammar {
    pub rules: Vec<Rule>,
}

/// A rule: a name and what it stands for.
#[derive(Debug, PartialEq, Eq)]
pub struct Rule {
    pub name: String,
    pub productions: Vec<Production>,
}

/// One way a rule can be realized.
#[derive(Debug, PartialEq, Eq)]
pub enum Production {
    Sequence(Vec<String>),
    Choice(Vec<String>),
    Repetition(String),
    Optional(String),
    Terminal(String),
    NonTerminal(String),
}

pub enum ProductionModel {
    Sequence(Seq<Seq<char>>),
    Choice(Seq<Seq<char>>),
    Repetition(Seq<char>),
    Optional(Seq<char>),
    Terminal(Seq<char>),
    NonTerminal(Seq<char>),
}

pub struct RuleModel {
    pub name: Seq<char>,
    pub productions: Seq<ProductionModel>,
}

pub open spec fn names_model(v: Seq<String>) -> Seq<Seq<char>> {
    v.map_values(|x: String| x@)
}

impl View for Production {
    type V = ProductionModel;

    open spec fn view(&self) -> ProductionModel {
        match self {
            Production::Sequence(v) => ProductionModel::Sequence(names_model(v@)),
            Production::Choice(v) => ProductionModel::Choice(names_model(v@)),
            Production::Repetition(x) => ProductionModel::Repetition(x@),
            Production::Optional(x) => ProductionModel::Optional(x@),
            Production::Terminal(x) => ProductionModel::Terminal(x@),
            Production::NonTerminal(x) => ProductionModel::NonTerminal(x@),
        }
    }
}

impl View for Rule {
    type V = RuleModel;

    open spec fn view(&self) -> RuleModel {
        RuleModel { name: self.name@, productions: self.productions@.map_values(|p: Production| p@) }
    }
}

impl View for Grammar {
    type V = Seq<RuleModel>;

    open spec fn view(&self) -> Seq<RuleModel> {
        self.rules@.map_values(|r: Rule| r@)
    }
}

/// `::=` stands at `i`.
pub open spec fn starts_define(s: Seq<char>, i: int) -> bool {
    0 <= i && i + 2 < s.len() && s[i] == ':' && s[i + 1] == ':' && s[i + 2] == '='
}

/// A symbol at `i`: a name that does not begin a new rule, or a quoted
/// terminal; with the position right after it.
pub open spec fn parse_symbol(s: Seq<char>, i: int) -> Option<(Seq<char>, int)> {
    if 0 <= i < s.len() && is_ident_start(s[i]) {
        let b = scan(s, i, CharClass::IdentChar);
        if starts_define(s, skip_ws(s, b)) {
            None
        } else {
            Some((s.subrange(i, b), b))
        }
    } else if 0 <= i < s.len() && s[i] == '"' {
        let j = scan(s, i + 1, CharClass::TextChar);
        if j < s.len() {
            Some((s.subrange(i + 1, j), j + 1))
        } else {
            None
        }
    } else {
        None
    }
}

/// The symbols from `i` on, each after optional whitespace, and the position
/// after the last of them (`i` if there is none).
pub open spec fn parse_symbols(s: Seq<char>, i: int) -> (Seq<Seq<char>>, int)
    decreases s.len() - i,
{
    let j = skip_ws(s, i);
    match parse_symbol(s, j) {
        Some((x, k)) => if i < k <= s.len() {
            let (rest, e) = parse_symbols(s, k);
            (seq![x] + rest, e)
        } else {
            (Seq::empty(), i)
        },
        None => (Seq::empty(), i),
    }
}

/// The `| symbols` alternatives from `i` on: their symbols in one list, how
/// many there were, and the position after the last.
pub open spec fn parse_alternatives(s: Seq<char>, i: int) -> (Seq<Seq<char>>, nat, int)
    decreases s.len() - i,
{
    let j = skip_ws(s, i);
    if 0 <= j < s.len() && s[j] == '|' {
        let (syms, k) = parse_symbols(s, j + 1);
        if syms.len() > 0 && i < k <= s.len() {
            let (rest, n, e) = parse_alternatives(s, k);
            (syms + rest, n + 1, e)
        } else {
            (Seq::empty(), 0, i)
        }
    } else {
        (Seq::empty(), 0, i)
    }
}

/// The production from `i` on.
pub open spec fn parse_production(s: Seq<char>, i: int) -> Option<(ProductionModel, int)> {
    let (first, k) = parse_symbols(s, i);
    if first.len() == 0 {
        None
    } else {
        let (more, n, e) = parse_alternatives(s, k);
        if n == 0 {
            Some((ProductionModel::Sequence(first), e))
        } else {
            Some((ProductionModel::Choice(first + more), e))
        }
    }
}

/// A rule at `i`, with an optional `;` after it.
pub open spec fn parse_rule(s: Seq<char>, i: int) -> Option<(RuleModel, int)> {
    if 0 <= i < s.len() && is_ident_start(s[i]) {
        let b = scan(s, i, CharClass::IdentChar);
        let c = skip_ws(s, b);
        if starts_define(s, c) {
            match parse_production(s, c + 3) {
                Some((p, e)) => {
                    let f = skip_ws(s, e);
                    let g = if f < s.len() && s[f] == ';' {
                        f + 1
                    } else {
                        e
                    };
                    Some((RuleModel { name: s.subrange(i, b), productions: seq![p] }, g))
                },
                None => None,
            }
        } else {
            None
        }
    } else {
        None
    }
}

/// The rules from `i` on, up to the first place where no rule can be read.
pub open spec fn parse_rules(s: Seq<char>, i: int) -> Seq<RuleModel>
    decreases s.len() - i,
{
    let j = skip_ws(s, i);
    match parse_rule(s, j) {
        Some((r, k)) => if i < k <= s.len() {
            seq![r] + parse_rules(s, k)
        } else {
            Seq::empty()
        },
        None => Seq::empty(),
    }
}

proof fn lemma_symbol_bounds(s: Seq<char>, i: int)
    requires
        0 <= i <= s.len(),
    ensures
        parse_symbol(s, i) matches Some((_, k)) ==> i < k <= s.len(),
{
    if 0 <= i < s.len() && is_ident_start(s[i]) {
        lemma_scan(s, i, CharClass::IdentChar);
    } else if 0 <= i < s.len() && s[i] == '"' {
        lemma_scan(s, i + 1, CharClass::TextChar);
    }
}

proof fn lemma_symbols_bounds(s: Seq<char>, i: int)
    requires
        0 <= i <= s.len(),
    ensures
        i <= parse_symbols(s, i).1 <= s.len(),
        parse_symbols(s, i).0.len() > 0 ==> i < parse_symbols(s, i).1,
    decreases s.len() - i,
{
    lemma_scan(s, i, CharClass::Space);
    let j = skip_ws(s, i);
    lemma_symbol_bounds(s, j);
    if let Some((x, k)) = parse_symbol(s, j) {
        if i < k <= s.len() {
            lemma_symbols_bounds(s, k);
        }
    }
}

proof fn lemma_alternatives_bounds(s: Seq<char>, i: int)
    requires
        0 <= i <= s.len(),
    ensures
        i <= parse_alternatives(s, i).2 <= s.len(),
    decreases s.len() - i,
{
    lemma_scan(s, i, CharClass::Space);
    let j = skip_ws(s, i);
    if 0 <= j < s.len() && s[j] == '|' {
        lemma_symbols_bounds(s, j + 1);
        let (syms, k) = parse_symbols(s, j + 1);
        if syms.len() > 0 && i < k <= s.len() {
            lemma_alternatives_bounds(s, k);
        }
    }
}

proof fn lemma_rule_bounds(s: Seq<char>, i: int)
    requires
        0 <= i <= s.len(),
    ensures
        parse_rule(s, i) matches Some((_, g)) ==> i < g <= s.len(),
{
    if 0 <= i < s.len() && is_ident_start(s[i]) {
        lemma_scan(s, i, CharClass::IdentChar);
        let b = scan(s, i, CharClass::IdentChar);
        lemma_scan(s, b, CharClass::Space);
        let c = skip_ws(s, b);
        if starts_define(s, c) {
            lemma_symbols_bounds(s, c + 3);
            let (first, k) = parse_symbols(s, c + 3);
            lemma_alternatives_bounds(s, k);
            if let Some((p, e)) = parse_production(s, c + 3) {
                lemma_scan(s, e, CharClass::Space);
            }
        }
    }
}

fn starts_define_exec(s: &Vec<char>, i: usize) -> (r: bool)
    ensures
        r == starts_define(s@, i as int),
{
    i < s.len() && s.len() - i > 2 && s[i] == ':' && s[i + 1] == ':' && s[i + 2] == '='
}

fn parse_symbol_exec(src: &str, s: &Vec<char>, i: usize) -> (r: Option<(String, usize)>)
    requires
        s@ == src@,
        i <= s@.len(),
    ensures
        match r {
            Some((x, k)) => parse_symbol(s@, i as int) == Some((x@, k as int)),
            None => parse_symbol(s@, i as int) is None,
        },
{
    if i < s.len() && (('a' <= s[i] && s[i] <= 'z') || ('A' <= s[i] && s[i] <= 'Z') || s[i]
        == '_') {
        let b = scan_class(s, i, CharClass::IdentChar);
        let c = scan_class(s, b, CharClass::Space);
        if starts_define_exec(s, c) {
            None
        } else {
            Some((substring(src, i, b), b))
        }
    } else if i < s.len() && s[i] == '"' {
        let j = scan_class(s, i + 1, CharClass::TextChar);
        if j < s.len() {
            Some((substring(src, i + 1, j), j + 1))
        } else {
            None
        }
    } else {
        None
    }
}

/// Appends the symbols from `i` on to `out`; returns the position after the
/// last of them.
fn parse_symbols_exec(src: &str, s: &Vec<char>, i: usize, out: &mut Vec<String>) -> (r: usize)
    requires
        s@ == src@,
        i <= s@.len(),
    ensures
        names_model(final(out)@) == names_model(old(out)@) + parse_symbols(s@, i as int).0,
        r == parse_symbols(s@, i as int).1,
{
    let ghost start = names_model(out@);
    let mut pos = i;
    proof {
        assert(start + Seq::<Seq<char>>::empty() =~= start);
    }
    loop
        invariant
            s@ == src@,
            i <= pos <= s@.len(),
            names_model(old(out)@) == start,
            start + parse_symbols(s@, i as int).0 == names_model(out@) + parse_symbols(
                s@,
                pos as int,
            ).0,
            parse_symbols(s@, i as int).1 == parse_symbols(s@, pos as int).1,
        decreases s@.len() - pos,
    {
        let j = scan_class(s, pos, CharClass::Space);
        proof {
            lemma_scan(s@, pos as int, CharClass::Space);
            lemma_symbol_bounds(s@, j as int);
        }
        match parse_symbol_exec(src, s, j) {
            Some((x, k)) => {
                let ghost before = names_model(out@);
                let ghost rest = parse_symbols(s@, k as int).0;
                out.push(x);
                proof {
                    assert(names_model(out@) =~= before + seq![x@]);
                    assert(before + (seq![x@] + rest) =~= names_model(out@) + rest);
                }
                pos = k;
            },
            None => {
                proof {
                    assert(names_model(out@) + Seq::<Seq<char>>::empty() =~= names_model(out@));
                }
                return pos;
            },
        }
    }
}

fn parse_production_exec(src: &str, s: &Vec<char>, i: usize) -> (r: Option<(Production, usize)>)
    requires
        s@ == src@,
        i <= s@.len(),
    ensures
        match r {
            Some((p, e)) => parse_production(s@, i as int) == Some((p@, e as int)),
            None => parse_production(s@, i as int) is None,
        },
{
    let mut syms: Vec<String> = Vec::new();
    let k = parse_symbols_exec(src, s, i, &mut syms);
    proof {
        assert(names_model(Seq::<String>::empty()) =~= Seq::<Seq<char>>::empty());
        assert(Seq::<Seq<char>>::empty() + parse_symbols(s@, i as int).0 =~= parse_symbols(
            s@,
            i as int,
        ).0);
        lemma_symbols_bounds(s@, i as int);
    }
    if syms.len() == 0 {
        return None;
    }
    let ghost first = names_model(syms@);
    let mut n: usize = 0;
    let mut pos = k;
    loop
        invariant
            s@ == src@,
            k <= pos <= s@.len(),
            n <= pos,
            names_model(syms@).len() > 0,
            first + parse_alternatives(s@, k as int).0 == names_model(syms@) + parse_alternatives(
                s@,
                pos as int,
            ).0,
            parse_alternatives(s@, k as int).1 == n + parse_alternatives(s@, pos as int).1,
            parse_alternatives(s@, k as int).2 == parse_alternatives(s@, pos as int).2,
        ensures
            parse_alternatives(s@, pos as int) == (Seq::<Seq<char>>::empty(), 0nat, pos as int),
        decreases s@.len() - pos,
    {
        let j = scan_class(s, pos, CharClass::Space);
        proof {
            lemma_scan(s@, pos as int, CharClass::Space);
        }
        if !(j < s.len() && s[j] == '|') {
            break;
        }
        let ghost before = names_model(syms@);
        let mut alt: Vec<String> = Vec::new();
        let e = parse_symbols_exec(src, s, j + 1, &mut alt);
        proof {
            assert(names_model(Seq::<String>::empty()) =~= Seq::<Seq<char>>::empty());
            assert(Seq::<Seq<char>>::empty() + parse_symbols(s@, j + 1).0 =~= parse_symbols(
                s@,
                j + 1,
            ).0);
            lemma_symbols_bounds(s@, j + 1);
        }
        if alt.len() == 0 {
            break;
        }
        let ghost alt_names = names_model(alt@);
        let ghost rest = parse_alternatives(s@, e as int).0;
        syms.append(&mut alt);
        proof {
            assert(names_model(syms@) =~= before + alt_names);
            assert(before + (alt_names + rest) =~= names_model(syms@) + rest);
        }
        n = n + 1;
        pos = e;
    }
    proof {
        assert(names_model(syms@) + Seq::<Seq<char>>::empty() =~= names_model(syms@));
    }
    if n == 0 {
        Some((Production::Sequence(syms), pos))
    } else {
        Some((Production::Choice(syms), pos))
    }
}

fn parse_rule_exec(src: &str, s: &Vec<char>, i: usize) -> (r: Option<(Rule, usize)>)
    requires
        s@ == src@,
        i <= s@.len(),
    ensures
        match r {
            Some((rule, g)) => parse_rule(s@, i as int) == Some((rule@, g as int)),
            None => parse_rule(s@, i as int) is None,
        },
{
    if !(i < s.len() && (('a' <= s[i] && s[i] <= 'z') || ('A' <= s[i] && s[i] <= 'Z') || s[i]
        == '_')) {
        return None;
    }
    let b = scan_class(s, i, CharClass::IdentChar);
    let c = scan_class(s, b, CharClass::Space);
    if !starts_define_exec(s, c) {
        return None;
    }
    let (p, e) = match parse_production_exec(src, s, c + 3) {
        Some(x) => x,
        None => return None,
    };
    proof {
        lemma_rule_bounds(s@, i as int);
    }
    let f = scan_class(s, e, CharClass::Space);
    let g = if f < s.len() && s[f] == ';' {
        f + 1
    } else {
        e
    };
    let name = substring(src, i, b);
    let mut productions: Vec<Production> = Vec::new();
    productions.push(p);
    let rule = Rule { name, productions };
    proof {
        assert(rule@.productions =~= seq![p@]);
    }
    Some((rule, g))
}

/// Reads the rules of `src` in order, up to the first place where no rule
/// can be read. What follows that place is left unread, so reading never
/// fails: a text with no rule at its start gives an empty grammar.
pub fn parse_grammar(src: &str) -> (r: Result<Grammar, ParseError>)
    ensures
        r matches Ok(g) && g@ == parse_rules(src@, 0),
{
    let s = chars_of(src);
    let mut rules: Vec<Rule> = Vec::new();
    let mut pos: usize = 0;
    loop
        invariant
            s@ == src@,
            pos <= s@.len(),
            parse_rules(s@, 0) == rules@.map_values(|r: Rule| r@) + parse_rules(s@, pos as int),
        decreases s@.len() - pos,
    {
        let j = scan_class(&s, pos, CharClass::Space);
        proof {
            lemma_scan(s@, pos as int, CharClass::Space);
            lemma_rule_bounds(s@, j as int);
        }
        match parse_rule_exec(src, &s, j) {
            Some((rule, k)) => {
                let ghost before = rules@.map_values(|r: Rule| r@);
                let ghost rest = parse_rules(s@, k as int);
                let ghost rv = rule@;
                rules.push(rule);
                proof {
                    assert(rules@.map_values(|r: Rule| r@) =~= before + seq![rv]);
                    assert(before + (seq![rv] + rest) =~= rules@.map_values(|r: Rule| r@) + rest);
                }
                pos = k;
            },
            None => {
                proof {
                    assert(rules@.map_values(|r: Rule| r@) + Seq::<RuleModel>::empty()
                        =~= rules@.map_values(|r: Rule| r@));
                }
                return Ok(Grammar { rules });
            },
        }
    }
}

/// A parser for grammars, as a value that can be used repeatedly.
pub struct EbnfParser {}

impl EbnfParser {
    /// Reads a grammar, as `parse_grammar` does.
    pub fn parse(&self, src: &str) -> (r: Result<Grammar, ParseError>)
        ensures
            r matches Ok(g) && g@ == parse_rules(src@, 0),
    {
        parse_grammar(src)
    }
}

/// The parser for grammars.
pub fn ebnf_parser() -> (r: EbnfParser) {
    EbnfParser {}
}

} // verus!
