//! The evaluator: runs `let` statements against a symbol table of
//! single-assignment bindings.
use vstd::prelude::*;
use crate::parser::{
    parse_program, parse_source, program_model, Expr, ExprModel, ParseError, Statement,
    StatementModel,
};

verus! {

/// A runtime value.
#[derive(Debug, Clone, PartialEq, Eq)]
pub enum Value {
    Number(i64),
    Text(String),
}

/// The mathematical value of a `Value`.
pub enum ValueModel {
    Number(i64),
    Text(Seq<char>),
}

impl View for Value {
    type V = ValueModel;

    open spec fn view(&self) -> ValueModel {
        match self {
            Value::Number(n) => ValueModel::Number(*n),
            Value::Text(t) => ValueModel::Text(t@),
        }
    }
}

/// Why an evaluation stopped.
#[derive(Debug, Clone, PartialEq, Eq)]
pub enum EvalError {
    /// A `let` named a variable that is already bound.
    DuplicateDefinition(String),
    /// An expression named a variable that is not bound.
    UndefinedVariable(String),
    /// An addition had a text operand.
    TypeMismatch,
}

/// The mathematical value of an `EvalError`.
pub enum EvalErrorModel {
    DuplicateDefinition(Seq<char>),
    UndefinedVariable(Seq<char>),
    TypeMismatch,
}

impl View for EvalError {
    type V = EvalErrorModel;

    open spec fn view(&self) -> EvalErrorModel {
        match self {
            EvalError::DuplicateDefinition(n) => EvalErrorModel::DuplicateDefinition(n@),
            EvalError::UndefinedVariable(n) => EvalErrorModel::UndefinedVariable(n@),
            EvalError::TypeMismatch => EvalErrorModel::TypeMismatch,
        }
    }
}

impl EvalError {
    /// A message for people, naming the variable concerned.
    pub fn message(&self) -> (r: String)
        ensures
            match self {
                EvalError::DuplicateDefinition(n) => r@ == "Variable already defined: "@ + n@,
                EvalError::UndefinedVariable(n) => r@ == "Undefined variable: "@ + n@,
                EvalError::TypeMismatch => r@ == "Addition is only supported for numbers"@,
            },
    {
        match self {
            EvalError::DuplicateDefinition(n) => String::from_str(
                "Variable already defined: ",
            ).concat(n.as_str()),
            EvalError::UndefinedVariable(n) => String::from_str("Undefined variable: ").concat(
                n.as_str(),
            ),
            EvalError::TypeMismatch => String::from_str("Addition is only supported for numbers"),
        }
    }
}

pub type Env = Map<Seq<char>, ValueModel>;

/// The bindings that a list of entries makes, later entries over earlier.
pub open spec fn entries_map(s: Seq<(String, Value)>) -> Env
    decreases s.len(),
{
    if s.len() == 0 {
        Map::empty()
    } else {
        entries_map(s.drop_last()).insert(s.last().0@, s.last().1@)
    }
}

pub open spec fn distinct_names(s: Seq<(String, Value)>) -> bool {
    forall|i: int, j: int| 0 <= i < j < s.len() ==> s[i].0@ != s[j].0@
}

/// The variables bound so far, each name at most once.
#[derive(Debug)]
pub struct SymbolTable {
    variables: Vec<(String, Value)>,
}

impl View for SymbolTable {
    type V = Env;

    closed spec fn view(&self) -> Env {
        entries_map(self.variables@)
    }
}

proof fn lemma_entries_map(s: Seq<(String, Value)>)
    requires
        distinct_names(s),
    ensures
        forall|i: int|
            0 <= i < s.len() ==> entries_map(s).contains_key(#[trigger] s[i].0@) && entries_map(
                s,
            )[s[i].0@] == s[i].1@,
        forall|k: Seq<char>|
            entries_map(s).contains_key(k) ==> exists|i: int| 0 <= i < s.len() && s[i].0@ == k,
    decreases s.len(),
{
    if s.len() > 0 {
        let p = s.drop_last();
        assert(distinct_names(p));
        lemma_entries_map(p);
        assert forall|i: int|
            0 <= i < s.len() implies entries_map(s).contains_key(#[trigger] s[i].0@)
            && entries_map(s)[s[i].0@] == s[i].1@ by {
            if i < s.len() - 1 {
                assert(p[i] == s[i]);
            }
        }
        assert forall|k: Seq<char>| entries_map(s).contains_key(k) implies exists|i: int|
            0 <= i < s.len() && s[i].0@ == k by {
            if k == s.last().0@ {
                assert(s[s.len() - 1].0@ == k);
            } else {
                assert(entries_map(p).contains_key(k));
                let i = choose|i: int| 0 <= i < p.len() && p[i].0@ == k;
                assert(s[i] == p[i]);
            }
        }
    }
}

fn copy_value(v: &Value) -> (r: Value)
    ensures
        r@ == v@,
{
    match v {
        Value::Number(n) => Value::Number(*n),
        Value::Text(t) => Value::Text(t.clone()),
    }
}

impl SymbolTable {
    /// No name is bound twice.
    pub closed spec fn wf(&self) -> bool {
        distinct_names(self.variables@)
    }

    /// An empty table.
    pub fn new() -> (r: Self)
        ensures
            r.wf(),
            r@ == Env::empty(),
    {
        SymbolTable { variables: Vec::new() }
    }

    /// Binds `name` to `value`, unless `name` is bound already.
    pub fn define(&mut self, name: &str, value: Value) -> (r: Result<(), EvalError>)
        requires
            old(self).wf(),
        ensures
            final(self).wf(),
            old(self)@.contains_key(name@) ==> final(self)@ == old(self)@ && (r matches Err(e)
                && e@ == EvalErrorModel::DuplicateDefinition(name@)),
            !old(self)@.contains_key(name@) ==> final(self)@ == old(self)@.insert(name@, value@)
                && r is Ok,
    {
        let key = name.to_owned();
        let found = self.position_of(&key);
        match found {
            Some(_) => Err(EvalError::DuplicateDefinition(key)),
            None => {
                proof {
                    lemma_entries_map(self.variables@);
                }
                let ghost before = self.variables@;
                self.variables.push((key, value));
                proof {
                    assert(self.variables@.drop_last() =~= before);
                    assert(distinct_names(self.variables@));
                }
                Ok(())
            },
        }
    }

    /// The index of the entry named `key`, if there is one.
    fn position_of(&self, key: &String) -> (r: Option<usize>)
        requires
            self.wf(),
        ensures
            r is Some <==> self@.contains_key(key@),
            r matches Some(i) ==> i < self.variables@.len() && self.variables@[i as int].0@
                == key@,
    {
        proof {
            lemma_entries_map(self.variables@);
        }
        let mut i: usize = 0;
        while i < self.variables.len()
            invariant
                self.wf(),
                i <= self.variables@.len(),
                forall|j: int| 0 <= j < i ==> self.variables@[j].0@ != key@,
            decreases self.variables@.len() - i,
        {
            if self.variables[i].0 == *key {
                proof {
                    lemma_entries_map(self.variables@);
                }
                return Some(i);
            }
            i = i + 1;
        }
        proof {
            lemma_entries_map(self.variables@);
            if self@.contains_key(key@) {
                let j = choose|j: int| 0 <= j < self.variables@.len() && self.variables@[j].0@ == key@;
                assert(self.variables@[j].0@ != key@);
            }
        }
        None
    }

    /// The value bound to `name`, if any.
    pub fn get(&self, name: &str) -> (r: Option<&Value>)
        requires
            self.wf(),
        ensures
            match r {
                Some(v) => self@.contains_key(name@) && self@[name@] == v@,
                None => !self@.contains_key(name@),
            },
    {
        proof {
            lemma_entries_map(self.variables@);
        }
        let key = name.to_owned();
        match self.position_of(&key) {
            Some(i) => Some(&self.variables[i].1),
            None => None,
        }
    }
}

impl Default for SymbolTable {
    fn default() -> (r: Self)
        ensures
            r.wf(),
            r@ == Env::empty(),
    {
        SymbolTable::new()
    }
}

/// The value of an expression in the bindings `env`: operands are evaluated
/// left before right, and numbers add with wrap-around on overflow.
pub open spec fn eval(e: ExprModel, env: Env) -> Result<ValueModel, EvalErrorModel>
    decreases e,
{
    match e {
        ExprModel::Number(n) => Ok(ValueModel::Number(n)),
        ExprModel::Text(t) => Ok(ValueModel::Text(t)),
        ExprModel::Variable(x) => if env.contains_key(x) {
            Ok(env[x])
        } else {
            Err(EvalErrorModel::UndefinedVariable(x))
        },
        ExprModel::Add(l, r) => match eval(*l, env) {
            Err(err) => Err(err),
            Ok(lv) => match eval(*r, env) {
                Err(err) => Err(err),
                Ok(rv) => match (lv, rv) {
                    (ValueModel::Number(a), ValueModel::Number(b)) => Ok(
                        ValueModel::Number(a.wrapping_add(b)),
                    ),
                    _ => Err(EvalErrorModel::TypeMismatch),
                },
            },
        },
    }
}

/// The bindings after running `p` from `env` in order, with the first error,
/// if one stopped the run.
pub open spec fn run(p: Seq<StatementModel>, env: Env) -> (Env, Option<EvalErrorModel>)
    decreases p.len(),
{
    if p.len() == 0 {
        (env, None)
    } else {
        match p[0] {
            StatementModel::Let(name, e) => match eval(e, env) {
                Err(err) => (env, Some(err)),
                Ok(v) => if env.contains_key(name) {
                    (env, Some(EvalErrorModel::DuplicateDefinition(name)))
                } else {
                    run(p.drop_first(), env.insert(name, v))
                },
            },
        }
    }
}

fn eval_expr(expr: &Expr, symbols: &SymbolTable) -> (r: Result<Value, EvalError>)
    requires
        symbols.wf(),
    ensures
        match r {
            Ok(v) => eval(expr@, symbols@) == Ok::<ValueModel, EvalErrorModel>(v@),
            Err(err) => eval(expr@, symbols@) == Err::<ValueModel, EvalErrorModel>(err@),
        },
    decreases expr,
{
    match expr {
        Expr::Number(n) => Ok(Value::Number(*n)),
        Expr::Text(t) => Ok(Value::Text(t.clone())),
        Expr::Variable(name) => match symbols.get(name.as_str()) {
            Some(v) => Ok(copy_value(v)),
            None => Err(EvalError::UndefinedVariable(name.clone())),
        },
        Expr::Add(lhs, rhs) => {
            let l = match eval_expr(lhs, symbols) {
                Ok(v) => v,
                Err(err) => return Err(err),
            };
            let r = match eval_expr(rhs, symbols) {
                Ok(v) => v,
                Err(err) => return Err(err),
            };
            match (l, r) {
                (Value::Number(a), Value::Number(b)) => Ok(Value::Number(a.wrapping_add(b))),
                _ => Err(EvalError::TypeMismatch),
            }
        },
    }
}

/// Evaluates `expr` against `symbols`.
pub fn evaluate_expression(expr: Expr, symbols: &SymbolTable) -> (r: Result<Value, EvalError>)
    requires
        symbols.wf(),
    ensures
        match r {
            Ok(v) => eval(expr@, symbols@) == Ok::<ValueModel, EvalErrorModel>(v@),
            Err(err) => eval(expr@, symbols@) == Err::<ValueModel, EvalErrorModel>(err@),
        },
{
    eval_expr(&expr, symbols)
}

/// Runs the statements in order, binding each name in `symbols`; stops at
/// the first error, leaving the bindings made before it.
pub fn evaluate_program(statements: Vec<Statement>, symbols: &mut SymbolTable) -> (r: Result<
    (),
    EvalError,
>)
    requires
        old(symbols).wf(),
    ensures
        final(symbols).wf(),
        final(symbols)@ == run(program_model(statements@), old(symbols)@).0,
        match r {
            Ok(_) => run(program_model(statements@), old(symbols)@).1 is None,
            Err(err) => run(program_model(statements@), old(symbols)@).1 == Some(err@),
        },
{
    let ghost p = program_model(statements@);
    let mut i: usize = 0;
    assert(p.skip(0) =~= p);
    while i < statements.len()
        invariant
            p == program_model(statements@),
            i <= statements@.len(),
            symbols.wf(),
            run(p, old(symbols)@) == run(p.skip(i as int), symbols@),
        decreases statements@.len() - i,
    {
        proof {
            assert(p.skip(i as int).drop_first() =~= p.skip(i as int + 1));
            assert(p.skip(i as int)[0] == statements@[i as int]@);
        }
        match &statements[i] {
            Statement::Let(name, expr) => {
                let value = match eval_expr(expr, symbols) {
                    Ok(v) => v,
                    Err(err) => return Err(err),
                };
                match symbols.define(name.as_str(), value) {
                    Ok(()) => {},
                    Err(err) => return Err(err),
                }
            },
        }
        i = i + 1;
    }
    assert(p.skip(i as int) =~= Seq::<StatementModel>::empty());
    Ok(())
}

/// Statements run from top to bottom: running `p` then `q` is running `p`
/// and, when that ended without error, running `q` from the bindings that
/// `p` left.
pub proof fn lemma_run_in_order(p: Seq<StatementModel>, q: Seq<StatementModel>, env: Env)
    ensures
        run(p + q, env) == if run(p, env).1 is None {
            run(q, run(p, env).0)
        } else {
            run(p, env)
        },
    decreases p.len(),
{
    if p.len() == 0 {
        assert(p + q =~= q);
    } else {
        assert((p + q)[0] == p[0]);
        assert((p + q).drop_first() =~= p.drop_first() + q);
        match p[0] {
            StatementModel::Let(name, e) => match eval(e, env) {
                Err(_) => {},
                Ok(v) => if !env.contains_key(name) {
                    lemma_run_in_order(p.drop_first(), q, env.insert(name, v));
                },
            },
        }
    }
}

/// Why running a source text stopped.
#[derive(Debug, Clone, PartialEq, Eq)]
pub enum InterpretError {
    Parse(ParseError),
    Eval(EvalError),
}

/// Parses `src` and runs it against `symbols`. Parsing either fails, leaving
/// `symbols` as it was, or the statements run as `evaluate_program` runs
/// them: the outcome is success or exactly one of the four kinds of error.
pub fn interpret(src: &str, symbols: &mut SymbolTable) -> (r: Result<(), InterpretError>)
    requires
        old(symbols).wf(),
    ensures
        final(symbols).wf(),
        match parse_program(src@) {
            Err(at) => final(symbols)@ == old(symbols)@ && (r matches Err(InterpretError::Parse(e))
                && e.position == at),
            Ok(p) => final(symbols)@ == run(p, old(symbols)@).0 && match r {
                Ok(_) => run(p, old(symbols)@).1 is None,
                Err(InterpretError::Eval(err)) => run(p, old(symbols)@).1 == Some(err@),
                Err(InterpretError::Parse(_)) => false,
            },
        },
{
    match parse_source(src) {
        Err(err) => Err(InterpretError::Parse(err)),
        Ok(program) => match evaluate_program(program, symbols) {
            Ok(()) => Ok(()),
            Err(err) => Err(InterpretError::Eval(err)),
        },
    }
}

} // verus!
