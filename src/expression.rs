use vstd::prelude::*;

use crate::environment::{assigned, lookup, Environment};
use crate::literal::{bool_value, is_truthy, renders, Literal, Number, Value};
use crate::scanner::{fixed_lexeme, fixed_spelling, lexeme_of, Token, TokenKind, TokenView};

verus! {

/// An expression tree; each node owns its children.
#[derive(Debug)]
pub enum Expr<N> {
    Grouping(Box<Expr<N>>),
    Literal(Literal<N>),
    Unary { op: Token, expr: Box<Expr<N>> },
    Binary { left: Box<Expr<N>>, op: Token, right: Box<Expr<N>> },
    Logical { left: Box<Expr<N>>, op: Token, right: Box<Expr<N>> },
    Variable(String),
    Assign { name: String, value: Box<Expr<N>> },
}

pub open spec fn fixed_view(k: TokenKind) -> TokenView {
    (k, Seq::empty())
}

/// A token with a number's text left out: the tree keeps a number's value,
/// not how it was written.
pub open spec fn erase_number(t: TokenView) -> TokenView {
    if t.0 == TokenKind::Number {
        fixed_view(TokenKind::Number)
    } else {
        t
    }
}

pub open spec fn literal_token<N>(l: Literal<N>) -> TokenView {
    match l {
        Literal::Number(_) => fixed_view(TokenKind::Number),
        Literal::String(s) => (TokenKind::String, s@),
        Literal::True => fixed_view(TokenKind::True),
        Literal::False => fixed_view(TokenKind::False),
        Literal::Nil => fixed_view(TokenKind::Nil),
    }
}

/// The tokens that spell the expression, numbers without their text.
pub open spec fn flatten<N>(e: Expr<N>) -> Seq<TokenView>
    decreases e,
{
    match e {
        Expr::Grouping(x) => seq![fixed_view(TokenKind::LeftParen)] + flatten(*x) + seq![
            fixed_view(TokenKind::RightParen),
        ],
        Expr::Literal(l) => seq![literal_token(l)],
        Expr::Unary { op, expr } => seq![op@] + flatten(*expr),
        Expr::Binary { left, op, right } => flatten(*left) + seq![op@] + flatten(*right),
        Expr::Logical { left, op, right } => flatten(*left) + seq![op@] + flatten(*right),
        Expr::Variable(name) => seq![(TokenKind::Identifier, name@)],
        Expr::Assign { name, value } => seq![
            (TokenKind::Identifier, name@),
            fixed_view(TokenKind::Equal),
        ] + flatten(*value),
    }
}

/// The precedence level of each binary operator, from `or` (1) to `*` `/` (6).
pub open spec fn binary_level(k: TokenKind) -> int {
    match k {
        TokenKind::Or => 1,
        TokenKind::And => 2,
        TokenKind::EqualEqual | TokenKind::BangEqual => 3,
        TokenKind::Less | TokenKind::LessEqual | TokenKind::Greater | TokenKind::GreaterEqual => 4,
        TokenKind::Minus | TokenKind::Plus => 5,
        TokenKind::Slash | TokenKind::Star => 6,
        _ => 0,
    }
}

/// The precedence level of an expression: assignment 0, binary operators 1 to
/// 6, unary 7, primary 8.
pub open spec fn level<N>(e: Expr<N>) -> int {
    match e {
        Expr::Assign { .. } => 0,
        Expr::Binary { op, .. } => binary_level(op@.0),
        Expr::Logical { op, .. } => binary_level(op@.0),
        Expr::Unary { .. } => 7,
        _ => 8,
    }
}

/// The tree is one the grammar derives: logical nodes hold `and` / `or`,
/// binary nodes the other operators, left operands bind at least as tightly as
/// the operator and right operands more tightly (left associativity), unary
/// nodes hold `!` or `-`, and an assignment's value is itself any expression.
pub open spec fn well_formed<N>(e: Expr<N>) -> bool
    decreases e,
{
    match e {
        Expr::Grouping(x) => well_formed(*x),
        Expr::Literal(_) => true,
        Expr::Unary { op, expr } => (op@ == fixed_view(TokenKind::Bang) || op@ == fixed_view(
            TokenKind::Minus,
        )) && level(*expr) >= 7 && well_formed(*expr),
        Expr::Binary { left, op, right } => 3 <= binary_level(op@.0) && op@.1.len() == 0 && level(
            *left,
        ) >= binary_level(op@.0) && level(*right) > binary_level(op@.0) && well_formed(*left)
            && well_formed(*right),
        Expr::Logical { left, op, right } => 1 <= binary_level(op@.0) <= 2 && op@.1.len() == 0
            && level(*left) >= binary_level(op@.0) && level(*right) > binary_level(op@.0)
            && well_formed(*left) && well_formed(*right),
        Expr::Variable(_) => true,
        Expr::Assign { value, .. } => well_formed(*value),
    }
}

/// A runtime error: fatal to the current run.
pub struct RuntimeError {
    pub message: String,
    pub line: u64,
}

/// The model of a scope chain.
pub type Scopes<N> = Seq<Map<Seq<char>, Value<N>>>;

/// The model of an evaluation's result: a value, or an error's message and line.
pub type Outcome<T> = Result<T, (Seq<char>, int)>;

pub open spec fn error_view(e: RuntimeError) -> (Seq<char>, int) {
    (e.message@, e.line as int)
}

pub open spec fn value_outcome<N>(r: Result<Literal<N>, RuntimeError>) -> Outcome<Value<N>> {
    match r {
        Ok(v) => Ok(v@),
        Err(e) => Err(error_view(e)),
    }
}

pub open spec fn undefined_message(name: Seq<char>) -> Seq<char> {
    "Undefined variable '"@ + name + "'."@
}

pub open spec fn operand_message() -> Seq<char> {
    "Operand must be a number."@
}

/// How a value's kind is named in an error message.
pub open spec fn kind_name<N>(v: Value<N>) -> Seq<char> {
    match v {
        Value::Number(_) => "number"@,
        Value::Str(_) => "string"@,
        Value::True | Value::False => "boolean"@,
        Value::Nil => "nil"@,
    }
}

/// The error for an operator that is not defined on its operands.
pub open spec fn invalid_message<N>(op: TokenView, a: Value<N>, b: Value<N>) -> Seq<char> {
    "Invalid operation '"@ + fixed_lexeme(op.0) + "' on "@ + kind_name(a) + " and "@ + kind_name(b)
}

pub open spec fn is_arithmetic(k: TokenKind) -> bool {
    k == TokenKind::Plus || k == TokenKind::Minus || k == TokenKind::Star || k == TokenKind::Slash
}

pub open spec fn is_comparison(k: TokenKind) -> bool {
    k == TokenKind::Less || k == TokenKind::LessEqual || k == TokenKind::Greater || k
        == TokenKind::GreaterEqual || k == TokenKind::EqualEqual || k == TokenKind::BangEqual
}

/// The results that a unary operator may give on `v`. Negation is the host's
/// arithmetic, so any number is admitted there.
pub open spec fn unary_result<N>(op: TokenView, v: Value<N>, line: u64, r: Outcome<Value<N>>) -> bool {
    if op.0 == TokenKind::Bang {
        r == Outcome::<Value<N>>::Ok(bool_value::<N>(!is_truthy(v)))
    } else if op.0 == TokenKind::Minus && v is Number {
        r is Ok && r->Ok_0 is Number
    } else {
        r == Outcome::<Value<N>>::Err((operand_message(), line as int))
    }
}

/// The results that a binary operator may give on `a` and `b`. On two numbers
/// arithmetic gives some number and a comparison some boolean (the host's
/// arithmetic decides which); on two strings `+` concatenates and `==` / `!=`
/// compare the text; on any other pair only `==` / `!=` are defined, and
/// values of different kinds are never equal.
pub open spec fn binary_result<N>(op: TokenView, a: Value<N>, b: Value<N>, line: u64, r: Outcome<
    Value<N>,
>) -> bool {
    let k = op.0;
    let invalid = Outcome::<Value<N>>::Err((invalid_message(op, a, b), line as int));
    if a is Number && b is Number {
        if is_arithmetic(k) {
            r is Ok && r->Ok_0 is Number
        } else if is_comparison(k) {
            r is Ok && (r->Ok_0 is True || r->Ok_0 is False)
        } else {
            r == invalid
        }
    } else if a is Str && b is Str {
        if k == TokenKind::Plus {
            r == Outcome::<Value<N>>::Ok(Value::Str(a->Str_0 + b->Str_0))
        } else if k == TokenKind::EqualEqual {
            r == Outcome::<Value<N>>::Ok(bool_value::<N>(a->Str_0 == b->Str_0))
        } else if k == TokenKind::BangEqual {
            r == Outcome::<Value<N>>::Ok(bool_value::<N>(a->Str_0 != b->Str_0))
        } else {
            r == invalid
        }
    } else if k == TokenKind::EqualEqual {
        r == Outcome::<Value<N>>::Ok(bool_value::<N>(a == b))
    } else if k == TokenKind::BangEqual {
        r == Outcome::<Value<N>>::Ok(bool_value::<N>(a != b))
    } else {
        r == invalid
    }
}

/// Whether a logical operator is decided by its left operand: `or` by a truthy
/// one, `and` by a falsy one.
pub open spec fn short_circuits<N>(op: TokenView, a: Value<N>) -> bool {
    if op.0 == TokenKind::Or {
        is_truthy(a)
    } else {
        !is_truthy(a)
    }
}

/// The intermediate results of an evaluation: for each operand evaluated,
/// its result and the scope chain after it.
pub enum Derivation<N> {
    Leaf,
    One(Box<Derivation<N>>, Outcome<Value<N>>, Scopes<N>),
    Two(Box<Derivation<N>>, Outcome<Value<N>>, Scopes<N>, Box<Derivation<N>>, Outcome<Value<N>>),
}

/// `d` records an evaluation of `e` in scope chain `env`, for a statement on
/// `line`, that gives `r` and leaves the chain as `env2`. Operands are
/// evaluated left to right; an error stops the evaluation.
pub open spec fn derives<N>(
    d: Derivation<N>,
    e: Expr<N>,
    env: Scopes<N>,
    line: u64,
    r: Outcome<Value<N>>,
    env2: Scopes<N>,
) -> bool
    decreases e,
{
    match e {
        Expr::Grouping(x) => derives(d, *x, env, line, r, env2),
        Expr::Literal(l) => r == Outcome::<Value<N>>::Ok(l@) && env2 == env,
        Expr::Variable(name) => env2 == env && match lookup(env, name@) {
            Some(v) => r == Outcome::<Value<N>>::Ok(v),
            None => r == Outcome::<Value<N>>::Err((undefined_message(name@), line as int)),
        },
        Expr::Assign { name, value } => match d {
            Derivation::One(dv, rv, env1) => derives(*dv, *value, env, line, rv, env1) && match rv {
                Err(err) => r == Outcome::<Value<N>>::Err(err) && env2 == env1,
                Ok(v) => match lookup(env1, name@) {
                    Some(_) => r == Outcome::<Value<N>>::Ok(v) && env2 == assigned(env1, name@, v),
                    None => r == Outcome::<Value<N>>::Err((undefined_message(name@), line as int))
                        && env2 == env1,
                },
            },
            _ => false,
        },
        Expr::Unary { op, expr } => match d {
            Derivation::One(dv, rv, env1) => env1 == env2 && derives(*dv, *expr, env, line, rv, env2)
                && match rv {
                Err(err) => r == Outcome::<Value<N>>::Err(err),
                Ok(v) => unary_result(op@, v, line, r),
            },
            _ => false,
        },
        Expr::Binary { left, op, right } => match d {
            Derivation::Two(dl, lv, env1, dr, rv) => derives(*dl, *left, env, line, lv, env1)
                && match lv {
                Err(err) => r == Outcome::<Value<N>>::Err(err) && env2 == env1,
                Ok(a) => derives(*dr, *right, env1, line, rv, env2) && match rv {
                    Err(err) => r == Outcome::<Value<N>>::Err(err),
                    Ok(b) => binary_result(op@, a, b, line, r),
                },
            },
            _ => false,
        },
        Expr::Logical { left, op, right } => match d {
            Derivation::Two(dl, lv, env1, dr, _) => derives(*dl, *left, env, line, lv, env1)
                && match lv {
                Err(err) => r == Outcome::<Value<N>>::Err(err) && env2 == env1,
                Ok(a) => if short_circuits(op@, a) {
                    r == Outcome::<Value<N>>::Ok(a) && env2 == env1
                } else {
                    derives(*dr, *right, env1, line, r, env2)
                },
            },
            _ => false,
        },
    }
}

/// Evaluating `e` in scope chain `env`, for a statement on `line`, may give `r`
/// and leave the chain as `env2`.
pub open spec fn evaluates<N>(e: Expr<N>, env: Scopes<N>, line: u64, r: Outcome<Value<N>>, env2: Scopes<
    N,
>) -> bool {
    exists|d: Derivation<N>| #[trigger] derives(d, e, env, line, r, env2)
}

fn kind_text<N: Number>(v: &Literal<N>) -> (r: String)
    ensures
        r@ == kind_name(v@),
{
    match v {
        Literal::Number(_) => String::from_str("number"),
        Literal::String(_) => String::from_str("string"),
        Literal::True | Literal::False => String::from_str("boolean"),
        Literal::Nil => String::from_str("nil"),
    }
}

fn invalid_operation<N: Number>(op: &Token, a: &Literal<N>, b: &Literal<N>, line: u64) -> (r:
    RuntimeError)
    ensures
        error_view(r) == (invalid_message(op@, a@, b@), line as int),
{
    let mut message = String::from_str("Invalid operation '");
    message.append(fixed_spelling(op.kind()));
    message.append("' on ");
    let ka = kind_text(a);
    message.append(ka.as_str());
    message.append(" and ");
    let kb = kind_text(b);
    message.append(kb.as_str());
    RuntimeError { message, line }
}

fn undefined_variable(name: &String, line: u64) -> (r: RuntimeError)
    ensures
        error_view(r) == (undefined_message(name@), line as int),
{
    let mut message = String::from_str("Undefined variable '");
    message.append(name.as_str());
    message.append("'.");
    RuntimeError { message, line }
}

/// Applies a unary operator to an evaluated operand.
fn unary_op<N: Number>(op: &Token, v: Literal<N>, line: u64) -> (r: Result<Literal<N>, RuntimeError>)
    ensures
        unary_result(op@, v@, line, value_outcome(r)),
{
    let k = op.kind();
    if k == TokenKind::Bang {
        Ok(Literal::from_bool(!v.truthy()))
    } else if k == TokenKind::Minus {
        match v {
            Literal::Number(n) => Ok(Literal::Number(n.negated())),
            _ => Err(RuntimeError { message: String::from_str("Operand must be a number."), line }),
        }
    } else {
        Err(RuntimeError { message: String::from_str("Operand must be a number."), line })
    }
}

/// Whether two values are equal: values of different kinds never are, and
/// numbers compare numerically.
pub fn values_equal<N: Number>(a: &Literal<N>, b: &Literal<N>) -> (r: bool)
    ensures
        !(a@ is Number && b@ is Number) ==> r == (a@ == b@),
{
    match (a, b) {
        (Literal::Number(x), Literal::Number(y)) => x.equal(*y),
        (Literal::String(x), Literal::String(y)) => *x == *y,
        (Literal::True, Literal::True) => true,
        (Literal::False, Literal::False) => true,
        (Literal::Nil, Literal::Nil) => true,
        _ => false,
    }
}

/// Applies a binary operator to two evaluated operands.
pub fn binary_op<N: Number>(op: &Token, a: Literal<N>, b: Literal<N>, line: u64) -> (r: Result<
    Literal<N>,
    RuntimeError,
>)
    ensures
        binary_result(op@, a@, b@, line, value_outcome(r)),
{
    let k = op.kind();
    match (&a, &b) {
        (Literal::Number(x), Literal::Number(y)) => {
            let (x, y) = (*x, *y);
            if k == TokenKind::Plus {
                Ok(Literal::Number(x.plus(y)))
            } else if k == TokenKind::Minus {
                Ok(Literal::Number(x.minus(y)))
            } else if k == TokenKind::Star {
                Ok(Literal::Number(x.times(y)))
            } else if k == TokenKind::Slash {
                Ok(Literal::Number(x.divided_by(y)))
            } else if k == TokenKind::Less {
                Ok(Literal::from_bool(x.less(y)))
            } else if k == TokenKind::LessEqual {
                Ok(Literal::from_bool(x.less_equal(y)))
            } else if k == TokenKind::Greater {
                Ok(Literal::from_bool(y.less(x)))
            } else if k == TokenKind::GreaterEqual {
                Ok(Literal::from_bool(y.less_equal(x)))
            } else if k == TokenKind::EqualEqual {
                Ok(Literal::from_bool(x.equal(y)))
            } else if k == TokenKind::BangEqual {
                Ok(Literal::from_bool(!x.equal(y)))
            } else {
                Err(invalid_operation(op, &a, &b, line))
            }
        },
        (Literal::String(x), Literal::String(y)) => {
            if k == TokenKind::Plus {
                let mut joined = x.clone();
                joined.append(y.as_str());
                Ok(Literal::String(joined))
            } else if k == TokenKind::EqualEqual {
                Ok(Literal::from_bool(*x == *y))
            } else if k == TokenKind::BangEqual {
                Ok(Literal::from_bool(!(*x == *y)))
            } else {
                Err(invalid_operation(op, &a, &b, line))
            }
        },
        _ => {
            if k == TokenKind::EqualEqual {
                Ok(Literal::from_bool(values_equal(&a, &b)))
            } else if k == TokenKind::BangEqual {
                Ok(Literal::from_bool(!values_equal(&a, &b)))
            } else {
                Err(invalid_operation(op, &a, &b, line))
            }
        },
    }
}

impl<N: Number> Expr<N> {
    /// Evaluates the expression for a statement on `line`, with a record of
    /// the evaluation.
    pub(crate) fn derive_at(&self, env: &mut Environment<N>, line: u64) -> (res: (
        Result<Literal<N>, RuntimeError>,
        Ghost<Derivation<N>>,
    ))
        requires
            old(env).wf(),
        ensures
            final(env).wf(),
            final(env)@.len() == old(env)@.len(),
            final(env).steps_left() == old(env).steps_left(),
            derives(res.1@, *self, old(env)@, line, value_outcome(res.0), final(env)@),
        decreases self,
    {
        let ghost env0 = env@;
        match self {
            Expr::Grouping(x) => x.derive_at(env, line),
            Expr::Literal(l) => (Ok(l.duplicate()), Ghost(Derivation::Leaf)),
            Expr::Variable(name) => {
                let r = match env.get(name) {
                    Some(v) => Ok(v),
                    None => Err(undefined_variable(name, line)),
                };
                (r, Ghost(Derivation::Leaf))
            },
            Expr::Assign { name, value } => {
                let (rv, Ghost(dv)) = value.derive_at(env, line);
                let ghost env1 = env@;
                let ghost d = Derivation::One(Box::new(dv), value_outcome(rv), env1);
                let r = match rv {
                    Err(e) => Err(e),
                    Ok(v) => {
                        let stored = v.duplicate();
                        if env.assign(name, stored) {
                            Ok(v)
                        } else {
                            Err(undefined_variable(name, line))
                        }
                    },
                };
                (r, Ghost(d))
            },
            Expr::Unary { op, expr } => {
                let (rv, Ghost(dv)) = expr.derive_at(env, line);
                let ghost d = Derivation::One(Box::new(dv), value_outcome(rv), env@);
                let r = match rv {
                    Err(e) => Err(e),
                    Ok(v) => unary_op(op, v, line),
                };
                (r, Ghost(d))
            },
            Expr::Binary { left, op, right } => {
                let (lv, Ghost(dl)) = left.derive_at(env, line);
                let ghost env1 = env@;
                let ghost lvv = value_outcome(lv);
                match lv {
                    Err(e) => (Err(e), Ghost(Derivation::Two(Box::new(dl), lvv, env1, Box::new(dl), lvv))),
                    Ok(a) => {
                        let (rv, Ghost(dr)) = right.derive_at(env, line);
                        let ghost d = Derivation::Two(
                            Box::new(dl),
                            lvv,
                            env1,
                            Box::new(dr),
                            value_outcome(rv),
                        );
                        let r = match rv {
                            Err(e) => Err(e),
                            Ok(b) => binary_op(op, a, b, line),
                        };
                        (r, Ghost(d))
                    },
                }
            },
            Expr::Logical { left, op, right } => {
                let (lv, Ghost(dl)) = left.derive_at(env, line);
                let ghost env1 = env@;
                let ghost lvv = value_outcome(lv);
                match lv {
                    Err(e) => (Err(e), Ghost(Derivation::Two(Box::new(dl), lvv, env1, Box::new(dl), lvv))),
                    Ok(a) => {
                        let decided = if op.kind() == TokenKind::Or {
                            a.truthy()
                        } else {
                            !a.truthy()
                        };
                        if decided {
                            (Ok(a), Ghost(Derivation::Two(Box::new(dl), lvv, env1, Box::new(dl), lvv)))
                        } else {
                            let (r, Ghost(dr)) = right.derive_at(env, line);
                            (r, Ghost(Derivation::Two(Box::new(dl), lvv, env1, Box::new(dr), lvv)))
                        }
                    },
                }
            },
        }
    }

    /// Evaluates the expression for a statement on `line`. Assignments change
    /// the scope chain; nothing else does.
    pub fn evaluate_at(&self, env: &mut Environment<N>, line: u64) -> (r: Result<
        Literal<N>,
        RuntimeError,
    >)
        requires
            old(env).wf(),
        ensures
            final(env).wf(),
            final(env)@.len() == old(env)@.len(),
            final(env).steps_left() == old(env).steps_left(),
            evaluates(*self, old(env)@, line, value_outcome(r), final(env)@),
    {
        let (r, Ghost(d)) = self.derive_at(env, line);
        r
    }

    /// Evaluates the expression on its own, as on line 1.
    pub fn evaluate(&self, env: &mut Environment<N>) -> (r: Result<Literal<N>, RuntimeError>)
        requires
            old(env).wf(),
        ensures
            final(env).wf(),
            final(env)@.len() == old(env)@.len(),
            final(env).steps_left() == old(env).steps_left(),
            evaluates(*self, old(env)@, 1, value_outcome(r), final(env)@),
    {
        self.evaluate_at(env, 1)
    }
}

/// The texts that the parts of a printed expression were rendered to.
pub enum Rendering {
    Leaf,
    Node(Box<Rendering>, Seq<char>, Box<Rendering>, Seq<char>),
}

/// `t` is the infix form of `e` whose parts `d` records: operators spaced,
/// groupings in parentheses, string literals in quotes, other literals as
/// they print.
pub open spec fn infix<N>(d: Rendering, e: Expr<N>, t: Seq<char>) -> bool
    decreases e,
{
    match e {
        Expr::Literal(l) => match l {
            Literal::String(text) => t == seq!['"'] + text@ + seq!['"'],
            _ => renders(l@, t),
        },
        Expr::Variable(name) => t == name@,
        _ => match d {
            Rendering::Node(da, ta, db, tb) => match e {
                Expr::Grouping(x) => infix(*da, *x, ta) && t == "("@ + ta + ")"@,
                Expr::Unary { op, expr } => infix(*da, *expr, ta) && t == lexeme_of(op@) + ta,
                Expr::Binary { left, op, right } => infix(*da, *left, ta) && infix(*db, *right, tb)
                    && t == ta + " "@ + lexeme_of(op@) + " "@ + tb,
                Expr::Logical { left, op, right } => infix(*da, *left, ta) && infix(*db, *right, tb)
                    && t == ta + " "@ + lexeme_of(op@) + " "@ + tb,
                Expr::Assign { name, value } => infix(*da, *value, ta) && t == name@ + " = "@ + ta,
                _ => false,
            },
            _ => false,
        },
    }
}

/// `t` is the parenthesized prefix form of `e` whose parts `d` records:
/// `(group x)`, `(op x)`, `(op a b)`, `(= name x)`, literals as they print.
pub open spec fn prefix<N>(d: Rendering, e: Expr<N>, t: Seq<char>) -> bool
    decreases e,
{
    match e {
        Expr::Literal(l) => renders(l@, t),
        Expr::Variable(name) => t == name@,
        _ => match d {
            Rendering::Node(da, ta, db, tb) => match e {
                Expr::Grouping(x) => prefix(*da, *x, ta) && t == "(group "@ + ta + ")"@,
                Expr::Unary { op, expr } => prefix(*da, *expr, ta) && t == "("@ + lexeme_of(op@)
                    + " "@ + ta + ")"@,
                Expr::Binary { left, op, right } => prefix(*da, *left, ta) && prefix(*db, *right, tb)
                    && t == "("@ + lexeme_of(op@) + " "@ + ta + " "@ + tb + ")"@,
                Expr::Logical { left, op, right } => prefix(*da, *left, ta) && prefix(*db, *right, tb)
                    && t == "("@ + lexeme_of(op@) + " "@ + ta + " "@ + tb + ")"@,
                Expr::Assign { name, value } => prefix(*da, *value, ta) && t == "(= "@ + name@ + " "@
                    + ta + ")"@,
                _ => false,
            },
            _ => false,
        },
    }
}

fn concat3(a: &str, b: &str, c: &str) -> (r: String)
    ensures
        r@ == a@ + b@ + c@,
{
    let mut r = String::from_str(a);
    r.append(b);
    r.append(c);
    r
}

impl<N: Number> Expr<N> {
    fn infix_rendering(&self) -> (res: (String, Ghost<Rendering>))
        ensures
            infix(res.1@, *self, res.0@),
        decreases self,
    {
        match self {
            Expr::Literal(l) => match l {
                Literal::String(text) => {
                    let t = concat3("\"", text.as_str(), "\"");
                    proof {
                        reveal_strlit("\"");
                        assert("\""@ =~= seq!['"']);
                    }
                    (t, Ghost(Rendering::Leaf))
                },
                _ => (l.to_string(), Ghost(Rendering::Leaf)),
            },
            Expr::Variable(name) => (name.clone(), Ghost(Rendering::Leaf)),
            Expr::Grouping(x) => {
                let (a, Ghost(da)) = x.infix_rendering();
                let t = concat3("(", a.as_str(), ")");
                (t, Ghost(Rendering::Node(Box::new(da), a@, Box::new(Rendering::Leaf), Seq::empty())))
            },
            Expr::Unary { op, expr } => {
                let (a, Ghost(da)) = expr.infix_rendering();
                let mut t = op.lexeme();
                t.append(a.as_str());
                (t, Ghost(Rendering::Node(Box::new(da), a@, Box::new(Rendering::Leaf), Seq::empty())))
            },
            Expr::Binary { left, op, right } | Expr::Logical { left, op, right } => {
                let (a, Ghost(da)) = left.infix_rendering();
                let (b, Ghost(db)) = right.infix_rendering();
                let o = op.lexeme();
                let mut t = concat3(a.as_str(), " ", o.as_str());
                t.append(" ");
                t.append(b.as_str());
                (t, Ghost(Rendering::Node(Box::new(da), a@, Box::new(db), b@)))
            },
            Expr::Assign { name, value } => {
                let (a, Ghost(da)) = value.infix_rendering();
                let t = concat3(name.as_str(), " = ", a.as_str());
                (t, Ghost(Rendering::Node(Box::new(da), a@, Box::new(Rendering::Leaf), Seq::empty())))
            },
        }
    }

    fn prefix_rendering(&self) -> (res: (String, Ghost<Rendering>))
        ensures
            prefix(res.1@, *self, res.0@),
        decreases self,
    {
        match self {
            Expr::Literal(l) => (l.to_string(), Ghost(Rendering::Leaf)),
            Expr::Variable(name) => (name.clone(), Ghost(Rendering::Leaf)),
            Expr::Grouping(x) => {
                let (a, Ghost(da)) = x.prefix_rendering();
                let t = concat3("(group ", a.as_str(), ")");
                (t, Ghost(Rendering::Node(Box::new(da), a@, Box::new(Rendering::Leaf), Seq::empty())))
            },
            Expr::Unary { op, expr } => {
                let (a, Ghost(da)) = expr.prefix_rendering();
                let o = op.lexeme();
                let mut t = concat3("(", o.as_str(), " ");
                t.append(a.as_str());
                t.append(")");
                (t, Ghost(Rendering::Node(Box::new(da), a@, Box::new(Rendering::Leaf), Seq::empty())))
            },
            Expr::Binary { left, op, right } | Expr::Logical { left, op, right } => {
                let (a, Ghost(da)) = left.prefix_rendering();
                let (b, Ghost(db)) = right.prefix_rendering();
                let o = op.lexeme();
                let mut t = concat3("(", o.as_str(), " ");
                t.append(a.as_str());
                t.append(" ");
                t.append(b.as_str());
                t.append(")");
                (t, Ghost(Rendering::Node(Box::new(da), a@, Box::new(db), b@)))
            },
            Expr::Assign { name, value } => {
                let (a, Ghost(da)) = value.prefix_rendering();
                let mut t = concat3("(= ", name.as_str(), " ");
                t.append(a.as_str());
                t.append(")");
                (t, Ghost(Rendering::Node(Box::new(da), a@, Box::new(Rendering::Leaf), Seq::empty())))
            },
        }
    }

    /// The infix form, as in `(5 + 2) * -6 == 9`.
    pub fn to_string_normal(&self) -> (r: String)
        ensures
            exists|d: Rendering| #[trigger] infix(d, *self, r@),
    {
        let (t, Ghost(d)) = self.infix_rendering();
        t
    }

    /// The fully parenthesized prefix form, as in `(== (* (group (+ 5 2)) (- 6)) 9)`.
    pub fn pretty_string(&self) -> (r: String)
        ensures
            exists|d: Rendering| #[trigger] prefix(d, *self, r@),
    {
        let (t, Ghost(d)) = self.prefix_rendering();
        t
    }
}

/// When the left operand of `and` / `or` decides the result, the right
/// operand is never evaluated: the same record fits whatever stands on the
/// right, and the result is the left operand's own value, uncoerced.
pub proof fn law_short_circuit<N>(
    d: Derivation<N>,
    left: Expr<N>,
    op: Token,
    right: Expr<N>,
    other: Expr<N>,
    env: Scopes<N>,
    line: u64,
    r: Outcome<Value<N>>,
    env2: Scopes<N>,
)
    requires
        derives(d, Expr::Logical { left: Box::new(left), op, right: Box::new(right) }, env, line, r, env2),
        d is Two,
        d->Two_1 is Ok,
        short_circuits(op@, d->Two_1->Ok_0),
    ensures
        r == d->Two_1,
        env2 == d->Two_2,
        derives(d, Expr::Logical { left: Box::new(left), op, right: Box::new(other) }, env, line, r, env2),
{
}

/// Values of different kinds are never equal: `==` gives `false` and `!=`
/// gives `true`, whatever the kinds.
pub proof fn law_distinct_kinds_unequal<N>(a: Value<N>, b: Value<N>, op: Token, line: u64, r: Outcome<
    Value<N>,
>)
    requires
        !(a is Number && b is Number),
        !(a is Str && b is Str),
        !(a is True && b is True),
        !(a is False && b is False),
        !(a is Nil && b is Nil),
        op@.0 == TokenKind::EqualEqual || op@.0 == TokenKind::BangEqual,
        binary_result(op@, a, b, line, r),
    ensures
        r == Outcome::<Value<N>>::Ok(bool_value::<N>(op@.0 == TokenKind::BangEqual)),
{
}

} // verus!
