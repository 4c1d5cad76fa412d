use vstd::prelude::*;

use crate::expression::{
    binary_level, erase_number, fixed_view, flatten, level, literal_token, well_formed, Expr,
};
use crate::literal::{Literal, Number};
use crate::scanner::{fixed_lexeme, kind_name_str, lexeme_of, Token, TokenKind, TokenView};
use crate::statement::{all_well_formed, lemma_all_well_formed, stmt_well_formed, Stmt};

verus! {

/// A grammar violation: fatal to the parse.
pub struct SyntaxError {
    pub message: String,
    pub line: u64,
}

/// The line of the token at `pos`; past the end, that of the last token.
pub open spec fn line_of(lines: Seq<u64>, pos: int) -> u64 {
    if 0 <= pos < lines.len() {
        lines[pos]
    } else if lines.len() > 0 {
        lines.last()
    } else {
        1
    }
}

fn line_at(lines: &Vec<u64>, pos: usize) -> (r: u64)
    ensures
        r == line_of(lines@, pos as int),
{
    if pos < lines.len() {
        lines[pos]
    } else if lines.len() > 0 {
        lines[lines.len() - 1]
    } else {
        1
    }
}

/// How an error message shows the token at `p`: `'lexeme' (KIND)`, or `EOF`
/// past the end.
#[verifier::opaque]
pub open spec fn found_view(t: Seq<Token>, p: int) -> Seq<char> {
    if 0 <= p < t.len() {
        "'"@ + lexeme_of(t[p]@) + "' ("@ + kind_name_str(t[p]@.0)@ + ")"@
    } else {
        "EOF"@
    }
}

/// "expected <what>, found <token at p>"
#[verifier::opaque]
pub open spec fn expected_message(what: Seq<char>, t: Seq<Token>, p: int) -> Seq<char> {
    "expected "@ + what + ", found "@ + found_view(t, p)
}

/// How a fixed token is named in an error message: `'lexeme' (KIND)`.
#[verifier::opaque]
pub open spec fn token_name(k: TokenKind) -> Seq<char> {
    "'"@ + fixed_lexeme(k) + "' ("@ + kind_name_str(k)@ + ")"@
}

/// A syntax error's line is that of a token at `pos` or after it.
pub open spec fn error_line_from(lines: Seq<u64>, pos: int, line: u64) -> bool {
    exists|p: int| pos <= p && line == #[trigger] line_of(lines, p)
}

/// The kind of the token at `pos`; past the end the stream reads as `EOF`.
pub open spec fn kind_at(t: Seq<Token>, pos: int) -> TokenKind {
    if 0 <= pos < t.len() {
        t[pos]@.0
    } else {
        TokenKind::EOF
    }
}

/// The tokens of `t[a..b]`, numbers without their text.
pub open spec fn erased(t: Seq<Token>, a: int, b: int) -> Seq<TokenView> {
    t.subrange(a, b).map_values(|x: Token| erase_number(x@))
}

/// The token at `p` cannot continue an expression of level `min_level`: it is
/// no operator of that level or a looser one (and no `=` at level 0).
pub open spec fn stops(t: Seq<Token>, p: int, min_level: int) -> bool {
    let k = kind_at(t, p);
    if min_level <= 0 {
        binary_level(k) == 0 && k != TokenKind::Equal
    } else {
        binary_level(k) < min_level
    }
}

/// The tokens from `pos` on spell `e` (numbers aside).
pub open spec fn spells<N>(t: Seq<Token>, pos: int, e: Expr<N>) -> bool {
    0 <= pos && pos + flatten(e).len() <= t.len() && erased(t, pos, pos + flatten(e).len())
        == flatten(e)
}

/// The two trees are equal but for the values of their number literals.
pub open spec fn same_shape<N>(a: Expr<N>, b: Expr<N>) -> bool
    decreases a,
{
    match a {
        Expr::Grouping(x) => b is Grouping && same_shape(*x, *b->Grouping_0),
        Expr::Literal(l) => b is Literal && literal_token(l) == literal_token(b->Literal_0),
        Expr::Unary { op, expr } => b is Unary && op@ == b->Unary_op@ && same_shape(*expr, *b->Unary_expr),
        Expr::Binary { left, op, right } => b is Binary && op@ == b->Binary_op@ && same_shape(*left, *b->Binary_left)
            && same_shape(*right, *b->Binary_right),
        Expr::Logical { left, op, right } => b is Logical && op@ == b->Logical_op@ && same_shape(*left, *b->Logical_left)
            && same_shape(*right, *b->Logical_right),
        Expr::Variable(name) => b is Variable && name@ == b->Variable_0@,
        Expr::Assign { name, value } => b is Assign && name@ == b->Assign_name@ && same_shape(*value, *b->Assign_value),
    }
}

/// What the parse at `pos` owes: wherever the tokens spell a tree the grammar
/// derives at level `min_level` or tighter, followed by a token that cannot
/// continue it, the parse succeeds, reads exactly those tokens and gives that
/// tree.
pub open spec fn complete<N>(t: Seq<Token>, pos: int, min_level: int, r: Result<(Expr<N>, usize), SyntaxError>) -> bool {
    forall|e: Expr<N>|
        #[trigger] spelled_at(t, pos, min_level, e) ==> r is Ok && r->Ok_0.1 == pos + flatten(
            e,
        ).len() && same_shape(r->Ok_0.0, e)
}

/// The tokens from `pos` spell `e`, a tree the grammar derives at level
/// `min_level` or tighter, and the token after it cannot continue it.
pub open spec fn spelled_at<N>(t: Seq<Token>, pos: int, min_level: int, e: Expr<N>) -> bool {
    spells(t, pos, e) && well_formed(e) && level(e) >= min_level && stops(
        t,
        pos + flatten(e).len(),
        min_level,
    )
}

/// `e` is a binary or logical node at level `lvl`.
pub open spec fn at_level<N>(e: Expr<N>, lvl: int) -> bool {
    (e is Binary || e is Logical) && level(e) == lvl
}

pub open spec fn left_of<N>(e: Expr<N>) -> Expr<N> {
    match e {
        Expr::Binary { left, .. } => *left,
        Expr::Logical { left, .. } => *left,
        _ => e,
    }
}

pub open spec fn right_of<N>(e: Expr<N>) -> Expr<N> {
    match e {
        Expr::Binary { right, .. } => *right,
        Expr::Logical { right, .. } => *right,
        _ => e,
    }
}

pub open spec fn op_of<N>(e: Expr<N>) -> TokenView {
    match e {
        Expr::Binary { op, .. } => op@,
        Expr::Logical { op, .. } => op@,
        _ => fixed_view(TokenKind::EOF),
    }
}

/// How many level-`lvl` nodes stand on the left spine of `e`.
pub open spec fn spine<N>(e: Expr<N>, lvl: int) -> nat
    decreases e,
{
    match e {
        Expr::Binary { left, op, .. } => if binary_level(op@.0) == lvl {
            1 + spine(*left, lvl)
        } else {
            0
        },
        Expr::Logical { left, op, .. } => if binary_level(op@.0) == lvl {
            1 + spine(*left, lvl)
        } else {
            0
        },
        _ => 0,
    }
}

/// `e` with its top `d` left-spine nodes taken off.
pub open spec fn strip<N>(e: Expr<N>, d: nat) -> Expr<N>
    decreases d,
{
    if d == 0 {
        e
    } else {
        strip(left_of(e), (d - 1) as nat)
    }
}

proof fn lemma_spine<N>(e: Expr<N>, lvl: int, d: nat)
    requires
        well_formed(e),
        level(e) >= lvl,
        1 <= lvl <= 6,
        d <= spine(e, lvl),
    ensures
        well_formed(strip(e, d)),
        level(strip(e, d)) >= lvl,
        spine(strip(e, d), lvl) == spine(e, lvl) - d,
        d < spine(e, lvl) ==> at_level(strip(e, d), lvl) && flatten(strip(e, d)) == flatten(
            strip(e, d + 1),
        ) + seq![op_of(strip(e, d))] + flatten(right_of(strip(e, d))) && well_formed(
            right_of(strip(e, d)),
        ) && level(right_of(strip(e, d))) > lvl && op_of(strip(e, d)).1.len() == 0 && (lvl <= 2
            ==> strip(e, d) is Logical) && (lvl >= 3 ==> strip(e, d) is Binary),
        d == spine(e, lvl) ==> level(strip(e, d)) > lvl,
    decreases d,
{
    if d > 0 {
        lemma_spine(left_of(e), lvl, (d - 1) as nat);
        assert(strip(e, d) == strip(left_of(e), (d - 1) as nat));
        assert(strip(e, d + 1) == strip(left_of(e), d));
    } else {
        if spine(e, lvl) > 0 {
            assert(strip(e, 1) == left_of(e));
        }
    }
}

proof fn lemma_strip_spells<N>(t: Seq<Token>, pos: int, e: Expr<N>, lvl: int, d: nat)
    requires
        spells(t, pos, e),
        well_formed(e),
        level(e) >= lvl,
        1 <= lvl <= 6,
        d <= spine(e, lvl),
    ensures
        spells(t, pos, strip(e, d)),
    decreases d,
{
    if d > 0 {
        let d1 = (d - 1) as nat;
        lemma_strip_spells(t, pos, e, lvl, d1);
        lemma_spine(e, lvl, d1);
        let whole = flatten(strip(e, d1));
        let part = flatten(strip(e, d));
        lemma_erased_sub(t, pos, pos, pos + part.len(), pos + whole.len());
        assert(whole.subrange(0, part.len() as int) =~= part);
    }
}

/// Inside the node `strip(e, d)`: its operator token, then its right operand.
proof fn lemma_node_tokens<N>(t: Seq<Token>, pos: int, e: Expr<N>, lvl: int, d: nat)
    requires
        spells(t, pos, e),
        well_formed(e),
        level(e) >= lvl,
        1 <= lvl <= 6,
        d < spine(e, lvl),
    ensures
        ({
            let n1 = flatten(strip(e, d + 1)).len() as int;
            &&& erase_number(t[pos + n1]@) == op_of(strip(e, d))
            &&& kind_at(t, pos + n1) == op_of(strip(e, d)).0
            &&& binary_level(op_of(strip(e, d)).0) == lvl
            &&& spells(t, pos + n1 + 1, right_of(strip(e, d)))
            &&& flatten(strip(e, d)).len() == n1 + 1 + flatten(right_of(strip(e, d))).len()
        }),
{
    lemma_strip_spells(t, pos, e, lvl, d);
    lemma_spine(e, lvl, d);
    let whole = flatten(strip(e, d));
    let n1 = flatten(strip(e, d + 1)).len() as int;
    let rt = flatten(right_of(strip(e, d)));
    lemma_erased_sub(t, pos, pos + n1 + 1, pos + n1 + 1 + rt.len(), pos + whole.len());
    assert(whole.subrange(n1 + 1, n1 + 1 + rt.len()) =~= rt);
    assert(erased(t, pos, pos + whole.len())[n1] == erase_number(t[pos + n1]@));
    assert(whole[n1] == op_of(strip(e, d)));
}

/// The token right after `strip(e, d)`: an operator of level `lvl` when
/// `d >= 1`, and one of a looser level (or none) when `d == 0`.
proof fn lemma_after_strip<N>(t: Seq<Token>, pos: int, e: Expr<N>, lvl: int, d: nat)
    requires
        spelled_at(t, pos, lvl, e),
        1 <= lvl <= 6,
        d <= spine(e, lvl),
    ensures
        (binary_level(kind_at(t, pos + flatten(strip(e, d)).len())) == lvl) <==> d >= 1,
        binary_level(kind_at(t, pos + flatten(strip(e, d)).len())) <= lvl,
{
    if d >= 1 {
        let d1 = (d - 1) as nat;
        lemma_node_tokens(t, pos, e, lvl, d1);
        assert(strip(e, d1 + 1) == strip(e, d));
    }
}

/// The operand that starts the left spine of `e` is spelled at `pos`, at the
/// next tighter level.
proof fn lemma_base_spelled<N>(t: Seq<Token>, pos: int, e: Expr<N>, lvl: int)
    requires
        spelled_at(t, pos, lvl, e),
        1 <= lvl <= 6,
    ensures
        spelled_at(t, pos, lvl + 1, strip(e, spine(e, lvl))),
{
    let k = spine(e, lvl);
    lemma_spine(e, lvl, k);
    lemma_strip_spells(t, pos, e, lvl, k);
    lemma_after_strip(t, pos, e, lvl, k);
    if k >= 1 {
    } else {
        assert(strip(e, 0) == e);
    }
}

/// At loop step `j`, with `p` after `strip(e, spine - j)` and an operator of
/// level `lvl` at `p`: the node above is there to be parsed, its right operand
/// spelled at `p + 1` and followed by a token that stops it.
proof fn lemma_step_spelled<N>(t: Seq<Token>, pos: int, e: Expr<N>, lvl: int, j: nat, p: int)
    requires
        spelled_at(t, pos, lvl, e),
        1 <= lvl <= 6,
        j <= spine(e, lvl),
        p == pos + flatten(strip(e, (spine(e, lvl) - j) as nat)).len(),
        binary_level(kind_at(t, p)) == lvl,
    ensures
        j < spine(e, lvl),
        spelled_at(t, p + 1, lvl + 1, right_of(strip(e, (spine(e, lvl) - j - 1) as nat))),
        erase_number(t[p]@) == op_of(strip(e, (spine(e, lvl) - j - 1) as nat)),
        p + 1 + flatten(right_of(strip(e, (spine(e, lvl) - j - 1) as nat))).len() == pos + flatten(
            strip(e, (spine(e, lvl) - j - 1) as nat),
        ).len(),
        lvl <= 2 ==> strip(e, (spine(e, lvl) - j - 1) as nat) is Logical,
        lvl >= 3 ==> strip(e, (spine(e, lvl) - j - 1) as nat) is Binary,
        left_of(strip(e, (spine(e, lvl) - j - 1) as nat)) == strip(e, (spine(e, lvl) - j) as nat),
{
    let k = spine(e, lvl);
    let d = (k - j) as nat;
    lemma_after_strip(t, pos, e, lvl, d);
    let d1 = (d - 1) as nat;
    lemma_node_tokens(t, pos, e, lvl, d1);
    lemma_spine(e, lvl, d1);
    assert(strip(e, d1 + 1) == strip(e, d));
    lemma_strip_left(e, d1);
    lemma_after_strip(t, pos, e, lvl, d1);
}

proof fn lemma_strip_left<N>(e: Expr<N>, d: nat)
    ensures
        left_of(strip(e, d)) == strip(e, d + 1),
    decreases d,
{
    assert(strip(e, d + 1) == strip(left_of(e), d));
    if d > 0 {
        lemma_strip_left(left_of(e), (d - 1) as nat);
        assert(strip(e, d) == strip(left_of(e), (d - 1) as nat));
    } else {
        assert(strip(left_of(e), 0) == left_of(e));
    }
}

proof fn lemma_flatten_nonempty<N>(e: Expr<N>)
    ensures
        flatten(e).len() >= 1,
    decreases e,
{
    match e {
        Expr::Binary { left, .. } => lemma_flatten_nonempty(*left),
        Expr::Logical { left, .. } => lemma_flatten_nonempty(*left),
        _ => {},
    }
}

proof fn lemma_erased_sub(t: Seq<Token>, a: int, b: int, c: int, d: int)
    requires
        0 <= a <= b <= c <= d <= t.len(),
    ensures
        erased(t, a, d).subrange(b - a, c - a) == erased(t, b, c),
{
    assert(erased(t, a, d).subrange(b - a, c - a) =~= erased(t, b, c));
}

/// The first token of what `e` spells.
proof fn lemma_first<N>(t: Seq<Token>, pos: int, e: Expr<N>)
    requires
        spells(t, pos, e),
    ensures
        0 <= pos < t.len(),
        flatten(e).len() >= 1,
        erase_number(t[pos]@) == flatten(e)[0],
{
    lemma_flatten_nonempty(e);
    assert(erased(t, pos, pos + flatten(e).len())[0] == erase_number(t[pos]@));
}

/// The tokens from `pos` spell an operand tree that is not a variable, and
/// `=` follows it: an invalid assignment target.
pub open spec fn bad_target<N>(t: Seq<Token>, pos: int) -> bool {
    exists|e: Expr<N>|
        #[trigger] spelled_at(t, pos, 1, e) && !(e is Variable) && kind_at(t, pos + flatten(e).len())
            == TokenKind::Equal
}

/// What a parse of an expression at `pos` promises: on success it consumed at
/// least one token, the consumed tokens spell the tree, the tree is one the
/// grammar derives at level `min_level` or tighter, and the next token cannot
/// continue it; on failure the error stands on the line of a token from `pos`
/// on.
pub open spec fn parsed_expr<N>(
    t: Seq<Token>,
    lines: Seq<u64>,
    pos: int,
    min_level: int,
    r: Result<(Expr<N>, usize), SyntaxError>,
) -> bool {
    match r {
        Ok((e, next)) => pos < next <= t.len() && flatten(e) == erased(t, pos, next as int)
            && well_formed(e) && level(e) >= min_level && stops(t, next as int, min_level),
        Err(err) => error_line_from(lines, pos, err.line),
    }
}

proof fn lemma_erased_concat(t: Seq<Token>, a: int, b: int, c: int)
    requires
        0 <= a <= b <= c <= t.len(),
    ensures
        erased(t, a, b) + erased(t, b, c) == erased(t, a, c),
{
    assert(erased(t, a, b) + erased(t, b, c) =~= erased(t, a, c));
}

proof fn lemma_erased_one(t: Seq<Token>, p: int)
    requires
        0 <= p < t.len(),
    ensures
        erased(t, p, p + 1) == seq![erase_number(t[p]@)],
{
    assert(erased(t, p, p + 1) =~= seq![erase_number(t[p]@)]);
}

proof fn lemma_fixed_text(t: Token)
    requires
        t@.0 != TokenKind::String,
        t@.0 != TokenKind::Number,
        t@.0 != TokenKind::Identifier,
    ensures
        t@ == fixed_view(t@.0),
{
}

fn kind_at_exec(tokens: &Vec<Token>, pos: usize) -> (r: TokenKind)
    ensures
        r == kind_at(tokens@, pos as int),
        tokens@.len() <= usize::MAX,
{
    if pos < tokens.len() {
        tokens[pos].kind()
    } else {
        TokenKind::EOF
    }
}

/// The token of a fixed kind.
fn fixed_token(k: TokenKind) -> (r: Token)
    requires
        k != TokenKind::String,
        k != TokenKind::Number,
        k != TokenKind::Identifier,
    ensures
        r@ == fixed_view(k),
{
    match k {
        TokenKind::LeftParen => Token::LeftParen,
        TokenKind::RightParen => Token::RightParen,
        TokenKind::LeftBrace => Token::LeftBrace,
        TokenKind::RightBrace => Token::RightBrace,
        TokenKind::RightBracket => Token::RightBracket,
        TokenKind::LeftBracket => Token::LeftBracket,
        TokenKind::Star => Token::Star,
        TokenKind::Dot => Token::Dot,
        TokenKind::Comma => Token::Comma,
        TokenKind::Plus => Token::Plus,
        TokenKind::Minus => Token::Minus,
        TokenKind::SemiColon => Token::SemiColon,
        TokenKind::Equal => Token::Equal,
        TokenKind::EqualEqual => Token::EqualEqual,
        TokenKind::Bang => Token::Bang,
        TokenKind::BangEqual => Token::BangEqual,
        TokenKind::Less => Token::Less,
        TokenKind::LessEqual => Token::LessEqual,
        TokenKind::Greater => Token::Greater,
        TokenKind::GreaterEqual => Token::GreaterEqual,
        TokenKind::EOF => Token::EOF,
        TokenKind::Slash => Token::Slash,
        TokenKind::And => Token::And,
        TokenKind::Class => Token::Class,
        TokenKind::Else => Token::Else,
        TokenKind::False => Token::False,
        TokenKind::For => Token::For,
        TokenKind::Fun => Token::Fun,
        TokenKind::If => Token::If,
        TokenKind::Nil => Token::Nil,
        TokenKind::Or => Token::Or,
        TokenKind::Print => Token::Print,
        TokenKind::Return => Token::Return,
        TokenKind::Super => Token::Super,
        TokenKind::This => Token::This,
        TokenKind::True => Token::True,
        TokenKind::Var => Token::Var,
        TokenKind::While => Token::While,
        _ => Token::EOF,
    }
}

fn found_text(tokens: &Vec<Token>, pos: usize) -> (r: String)
    ensures
        r@ == found_view(tokens@, pos as int),
{
    reveal(found_view);
    if pos < tokens.len() {
        let mut s = String::from_str("'");
        let lexeme = tokens[pos].lexeme();
        s.append(lexeme.as_str());
        s.append("' (");
        let name = tokens[pos].token_type();
        s.append(name.as_str());
        s.append(")");
        s
    } else {
        String::from_str("EOF")
    }
}

/// "expected <what>, found <token>", on the line of the token at `pos`.
fn unexpected(what: &str, tokens: &Vec<Token>, lines: &Vec<u64>, pos: usize) -> (r: SyntaxError)
    ensures
        r.line == line_of(lines@, pos as int),
        r.message@ == expected_message(what@, tokens@, pos as int),
{
    reveal(expected_message);
    let line = line_at(lines, pos);
    let mut message = String::from_str("expected ");
    message.append(what);
    message.append(", found ");
    let found = found_text(tokens, pos);
    message.append(found.as_str());
    SyntaxError { message, line }
}

/// Consumes one token of kind `k`.
fn expect(tokens: &Vec<Token>, lines: &Vec<u64>, pos: usize, k: TokenKind) -> (r: Result<usize, SyntaxError>)
    requires
        k != TokenKind::String,
        k != TokenKind::Number,
        k != TokenKind::Identifier,
        k != TokenKind::EOF,
    ensures
        match r {
            Ok(next) => kind_at(tokens@, pos as int) == k && next == pos + 1 && pos < tokens@.len(),
            Err(e) => kind_at(tokens@, pos as int) != k && e.line == line_of(lines@, pos as int)
                && e.message@ == expected_message(token_name(k), tokens@, pos as int),
        },
{
    reveal(token_name);
    if kind_at_exec(tokens, pos) == k {
        Ok(pos + 1)
    } else {
        let t = fixed_token(k);
        let mut what = String::from_str("'");
        let lexeme = t.lexeme();
        what.append(lexeme.as_str());
        what.append("' (");
        let name = t.token_type();
        what.append(name.as_str());
        what.append(")");
        Err(unexpected(what.as_str(), tokens, lines, pos))
    }
}

/// expression := assignment
pub fn parse_expression<N: Number>(tokens: &Vec<Token>, lines: &Vec<u64>, pos: usize) -> (r: Result<
    (Expr<N>, usize),
    SyntaxError,
>)
    ensures
        parsed_expr(tokens@, lines@, pos as int, 0, r),
        complete(tokens@, pos as int, 0, r),
        bad_target::<N>(tokens@, pos as int) ==> r is Err,
    decreases tokens@.len() - pos, 19int,
{
    assignment(tokens, lines, pos)
}

proof fn lemma_assign_split<N>(t: Seq<Token>, pos: int, e: Expr<N>)
    requires
        spelled_at(t, pos, 0, e),
        e is Assign,
    ensures
        spelled_at(t, pos, 1, Expr::<N>::Variable(e->Assign_name)),
        flatten(Expr::<N>::Variable(e->Assign_name)).len() == 1,
        kind_at(t, pos + 1) == TokenKind::Equal,
        spelled_at(t, pos + 2, 0, *e->Assign_value),
        flatten(e).len() == 2 + flatten(*e->Assign_value).len(),
{
    let fe = flatten(e);
    let v = *e->Assign_value;
    let n = flatten(v).len() as int;
    let var = Expr::<N>::Variable(e->Assign_name);
    assert(fe =~= seq![(TokenKind::Identifier, e->Assign_name@), fixed_view(TokenKind::Equal)]
        + flatten(v));
    lemma_erased_sub(t, pos, pos, pos + 1, pos + fe.len());
    assert(fe.subrange(0, 1) =~= flatten(var));
    lemma_erased_sub(t, pos, pos + 2, pos + 2 + n, pos + fe.len());
    assert(fe.subrange(2, 2 + n) =~= flatten(v));
    assert(erased(t, pos, pos + fe.len())[1] == erase_number(t[pos + 1]@));
}

proof fn lemma_not_assign<N>(t: Seq<Token>, pos: int, e: Expr<N>)
    requires
        spelled_at(t, pos, 0, e),
        !(e is Assign),
    ensures
        spelled_at(t, pos, 1, e),
        kind_at(t, pos + flatten(e).len()) != TokenKind::Equal,
{
}

/// assignment := IDENTIFIER '=' assignment | logical-or
fn assignment<N: Number>(tokens: &Vec<Token>, lines: &Vec<u64>, pos: usize) -> (r: Result<
    (Expr<N>, usize),
    SyntaxError,
>)
    ensures
        parsed_expr(tokens@, lines@, pos as int, 0, r),
        complete(tokens@, pos as int, 0, r),
        bad_target::<N>(tokens@, pos as int) ==> r is Err,
    decreases tokens@.len() - pos, 18int,
{
    let ghost t = tokens@;
    let (expr, p) = match binary(tokens, lines, pos, 1) {
        Ok(x) => x,
        Err(e) => {
            proof {
                assert forall|e: Expr<N>| #[trigger] spelled_at(t, pos as int, 0, e) implies false by {
                    if e is Assign {
                        lemma_assign_split(t, pos as int, e);
                    } else {
                        lemma_not_assign(t, pos as int, e);
                    }
                }
            }
            return Err(e);
        },
    };
    if kind_at_exec(tokens, p) == TokenKind::Equal {
        let ghost start = p + 1;
        let (value, q) = match assignment(tokens, lines, p + 1) {
            Ok(x) => x,
            Err(e) => {
                proof {
                    assert forall|e: Expr<N>| #[trigger] spelled_at(t, pos as int, 0, e) implies false by {
                        if e is Assign {
                            lemma_assign_split(t, pos as int, e);
                            assert(spelled_at(t, start, 0, *e->Assign_value));
                        } else {
                            lemma_not_assign(t, pos as int, e);
                        }
                    }
                }
                return Err(e);
            },
        };
        match expr {
            Expr::Variable(name) => {
                proof {
                    lemma_fixed_text(tokens@[p as int]);
                    lemma_erased_one(tokens@, p as int);
                    lemma_erased_concat(tokens@, pos as int, p as int, p + 1);
                    lemma_erased_concat(tokens@, pos as int, p + 1, q as int);
                }
                let r = Expr::Assign { name, value: Box::new(value) };
                assert(flatten(r) =~= erased(tokens@, pos as int, q as int));
                let res = Ok((r, q));
                proof {
                    assert forall|e: Expr<N>| #[trigger] spelled_at(t, pos as int, 0, e) implies res is Ok
                        && res->Ok_0.1 == pos + flatten(e).len() && same_shape(res->Ok_0.0, e) by {
                        if e is Assign {
                            lemma_assign_split(t, pos as int, e);
                            assert(spelled_at(t, start, 0, *e->Assign_value));
                        } else {
                            lemma_not_assign(t, pos as int, e);
                        }
                    }
                }
                res
            },
            _ => {
                proof {
                    assert forall|e: Expr<N>| #[trigger] spelled_at(t, pos as int, 0, e) implies false by {
                        if e is Assign {
                            lemma_assign_split(t, pos as int, e);
                        } else {
                            lemma_not_assign(t, pos as int, e);
                        }
                    }
                }
                Err(SyntaxError {
                    message: String::from_str("invalid assignment target"),
                    line: line_at(lines, p),
                })
            },
        }
    } else {
        let res = Ok((expr, p));
        proof {
            assert forall|e: Expr<N>| #[trigger] spelled_at(t, pos as int, 0, e) implies res is Ok
                && res->Ok_0.1 == pos + flatten(e).len() && same_shape(res->Ok_0.0, e) by {
                if e is Assign {
                    lemma_assign_split(t, pos as int, e);
                } else {
                    lemma_not_assign(t, pos as int, e);
                }
            }
        }
        res
    }
}

fn is_level_operator(k: TokenKind, lvl: u8) -> (r: bool)
    requires
        1 <= lvl <= 6,
    ensures
        r == (binary_level(k) == lvl as int),
{
    match k {
        TokenKind::Or => lvl == 1,
        TokenKind::And => lvl == 2,
        TokenKind::EqualEqual | TokenKind::BangEqual => lvl == 3,
        TokenKind::Less | TokenKind::LessEqual | TokenKind::Greater | TokenKind::GreaterEqual => lvl
            == 4,
        TokenKind::Minus | TokenKind::Plus => lvl == 5,
        TokenKind::Slash | TokenKind::Star => lvl == 6,
        _ => false,
    }
}

/// The operand of a level-`lvl` operator: the next tighter level.
fn operand<N: Number>(tokens: &Vec<Token>, lines: &Vec<u64>, pos: usize, lvl: u8) -> (r: Result<
    (Expr<N>, usize),
    SyntaxError,
>)
    requires
        1 <= lvl <= 6,
    ensures
        parsed_expr(tokens@, lines@, pos as int, lvl + 1, r),
        complete(tokens@, pos as int, lvl + 1, r),
    decreases tokens@.len() - pos, 2 * (8 - lvl) + 2,
{
    if lvl < 6 {
        binary(tokens, lines, pos, lvl + 1)
    } else {
        unary(tokens, lines, pos)
    }
}

/// level-`lvl` := operand (op operand)*, left-associative: `or` (1), `and`
/// (2), equality (3), comparison (4), term (5), factor (6).
fn binary<N: Number>(tokens: &Vec<Token>, lines: &Vec<u64>, pos: usize, lvl: u8) -> (r: Result<
    (Expr<N>, usize),
    SyntaxError,
>)
    requires
        1 <= lvl <= 6,
    ensures
        parsed_expr(tokens@, lines@, pos as int, lvl as int, r),
        complete(tokens@, pos as int, lvl as int, r),
    decreases tokens@.len() - pos, 2 * (8 - lvl) + 3,
{
    let ghost t = tokens@;
    let ghost l = lvl as int;
    let (mut left, mut p) = match operand(tokens, lines, pos, lvl) {
        Ok(x) => x,
        Err(e) => {
            proof {
                assert forall|e: Expr<N>| #[trigger] spelled_at(t, pos as int, l, e) implies false by {
                    lemma_base_spelled(t, pos as int, e, l);
                }
            }
            return Err(e);
        },
    };
    let ghost mut j: nat = 0;
    proof {
        assert forall|e: Expr<N>| #[trigger] spelled_at(t, pos as int, l, e) implies j <= spine(e, l)
            && p == pos + flatten(strip(e, (spine(e, l) - j) as nat)).len() && same_shape(
            left,
            strip(e, (spine(e, l) - j) as nat),
        ) by {
            lemma_base_spelled(t, pos as int, e, l);
        }
    }
    loop
        invariant
            1 <= lvl <= 6,
            t == tokens@,
            l == lvl as int,
            pos < p <= tokens@.len(),
            flatten(left) == erased(tokens@, pos as int, p as int),
            well_formed(left),
            level(left) >= lvl,
            binary_level(kind_at(tokens@, p as int)) <= lvl,
            forall|e: Expr<N>| #[trigger]
                spelled_at(t, pos as int, l, e) ==> j <= spine(e, l) && p == pos + flatten(
                    strip(e, (spine(e, l) - j) as nat),
                ).len() && same_shape(left, strip(e, (spine(e, l) - j) as nat)),
        decreases tokens@.len() - p,
    {
        let k = kind_at_exec(tokens, p);
        if !is_level_operator(k, lvl) {
            let res = Ok((left, p));
            proof {
                assert forall|e: Expr<N>| #[trigger] spelled_at(t, pos as int, l, e) implies res is Ok
                    && res->Ok_0.1 == pos + flatten(e).len() && same_shape(res->Ok_0.0, e) by {
                    lemma_after_strip(t, pos as int, e, l, (spine(e, l) - j) as nat);
                }
            }
            return res;
        }
        let op = fixed_token(k);
        let ghost start = p + 1;
        let (right, q) = match operand(tokens, lines, p + 1, lvl) {
            Ok(x) => x,
            Err(e) => {
                proof {
                    assert forall|e: Expr<N>| #[trigger] spelled_at(t, pos as int, l, e) implies false by {
                        lemma_step_spelled(t, pos as int, e, l, j, p as int);
                        assert(spelled_at(t, start, l + 1, right_of(strip(e, (spine(e, l) - j - 1) as nat))));
                    }
                }
                return Err(e);
            },
        };
        proof {
            lemma_fixed_text(tokens@[p as int]);
            lemma_erased_one(tokens@, p as int);
            lemma_erased_concat(tokens@, pos as int, p as int, p + 1);
            lemma_erased_concat(tokens@, pos as int, p + 1, q as int);
        }
        let ghost old_left = left;
        left = if lvl <= 2 {
            Expr::Logical { left: Box::new(left), op, right: Box::new(right) }
        } else {
            Expr::Binary { left: Box::new(left), op, right: Box::new(right) }
        };
        assert(flatten(left) =~= erased(tokens@, pos as int, q as int));
        proof {
            assert forall|e: Expr<N>| #[trigger] spelled_at(t, pos as int, l, e) implies j + 1 <= spine(e, l)
                && q == pos + flatten(strip(e, (spine(e, l) - (j + 1)) as nat)).len() && same_shape(
                left,
                strip(e, (spine(e, l) - (j + 1)) as nat),
            ) by {
                lemma_step_spelled(t, pos as int, e, l, j, p as int);
                assert(spelled_at(t, start, l + 1, right_of(strip(e, (spine(e, l) - j - 1) as nat))));
            }
            j = j + 1;
        }
        p = q;
    }
}

proof fn lemma_unary_split<N>(t: Seq<Token>, pos: int, e: Expr<N>)
    requires
        spelled_at(t, pos, 7, e),
        kind_at(t, pos) == TokenKind::Bang || kind_at(t, pos) == TokenKind::Minus,
    ensures
        e is Unary,
        spelled_at(t, pos + 1, 7, *e->Unary_expr),
        flatten(e).len() == flatten(*e->Unary_expr).len() + 1,
        e->Unary_op@ == fixed_view(kind_at(t, pos)),
{
    lemma_first(t, pos, e);
    lemma_fixed_text(t[pos]);
    let fe = flatten(e);
    let x = *e->Unary_expr;
    let n = flatten(x).len() as int;
    assert(fe =~= seq![e->Unary_op@] + flatten(x));
    lemma_erased_sub(t, pos, pos + 1, pos + 1 + n, pos + fe.len());
    assert(fe.subrange(1, 1 + n) =~= flatten(x));
}

proof fn lemma_not_unary<N>(t: Seq<Token>, pos: int, e: Expr<N>)
    requires
        spelled_at(t, pos, 7, e),
        kind_at(t, pos) != TokenKind::Bang,
        kind_at(t, pos) != TokenKind::Minus,
    ensures
        spelled_at(t, pos, 8, e),
{
    lemma_first(t, pos, e);
    if e is Unary {
        lemma_fixed_text(t[pos]);
    }
}

/// unary := ('!' | '-') unary | primary
fn unary<N: Number>(tokens: &Vec<Token>, lines: &Vec<u64>, pos: usize) -> (r: Result<
    (Expr<N>, usize),
    SyntaxError,
>)
    ensures
        parsed_expr(tokens@, lines@, pos as int, 7, r),
        complete(tokens@, pos as int, 7, r),
    decreases tokens@.len() - pos, 1int,
{
    let ghost t = tokens@;
    let k = kind_at_exec(tokens, pos);
    if k == TokenKind::Bang || k == TokenKind::Minus {
        let op = fixed_token(k);
        let ghost start = pos + 1;
        let (operand, q) = match unary(tokens, lines, pos + 1) {
            Ok(x) => x,
            Err(e) => {
                proof {
                    assert forall|e: Expr<N>| #[trigger] spelled_at(t, pos as int, 7, e) implies false by {
                        lemma_unary_split(t, pos as int, e);
                        assert(spelled_at(t, start, 7, *e->Unary_expr));
                    }
                }
                return Err(e);
            },
        };
        proof {
            lemma_fixed_text(tokens@[pos as int]);
            lemma_erased_one(tokens@, pos as int);
            lemma_erased_concat(tokens@, pos as int, pos + 1, q as int);
        }
        let r = Expr::Unary { op, expr: Box::new(operand) };
        assert(flatten(r) =~= erased(tokens@, pos as int, q as int));
        let res = Ok((r, q));
        proof {
            assert forall|e: Expr<N>| #[trigger] spelled_at(t, pos as int, 7, e) implies res is Ok
                && res->Ok_0.1 == pos + flatten(e).len() && same_shape(res->Ok_0.0, e) by {
                lemma_unary_split(t, pos as int, e);
                assert(spelled_at(t, start, 7, *e->Unary_expr));
            }
        }
        res
    } else {
        let res = primary(tokens, lines, pos);
        proof {
            assert forall|e: Expr<N>| #[trigger] spelled_at(t, pos as int, 7, e) implies res is Ok
                && res->Ok_0.1 == pos + flatten(e).len() && same_shape(res->Ok_0.0, e) by {
                lemma_not_unary(t, pos as int, e);
            }
        }
        res
    }
}

proof fn lemma_primary_grouping<N>(t: Seq<Token>, pos: int, e: Expr<N>)
    requires
        spelled_at(t, pos, 8, e),
        kind_at(t, pos) == TokenKind::LeftParen,
    ensures
        e is Grouping,
        spelled_at(t, pos + 1, 0, *e->Grouping_0),
        flatten(e).len() == flatten(*e->Grouping_0).len() + 2,
        kind_at(t, pos + 1 + flatten(*e->Grouping_0).len()) == TokenKind::RightParen,
{
    lemma_first(t, pos, e);
    let fe = flatten(e);
    let x = *e->Grouping_0;
    let n = flatten(x).len() as int;
    assert(fe =~= seq![fixed_view(TokenKind::LeftParen)] + flatten(x) + seq![
        fixed_view(TokenKind::RightParen),
    ]);
    lemma_erased_sub(t, pos, pos + 1, pos + 1 + n, pos + fe.len());
    assert(fe.subrange(1, 1 + n) =~= flatten(x));
    assert(erased(t, pos, pos + fe.len())[1 + n] == erase_number(t[pos + 1 + n]@));
    assert(fe[1 + n] == fixed_view(TokenKind::RightParen));
}

proof fn lemma_primary_single<N>(t: Seq<Token>, pos: int, e: Expr<N>)
    requires
        spelled_at(t, pos, 8, e),
        kind_at(t, pos) != TokenKind::LeftParen,
    ensures
        flatten(e).len() == 1,
        e is Literal ==> literal_token(e->Literal_0) == erase_number(t[pos]@),
        e is Variable ==> (TokenKind::Identifier, e->Variable_0@) == t[pos]@,
        e is Literal || e is Variable,
        kind_at(t, pos) == TokenKind::Identifier <==> e is Variable,
{
    lemma_first(t, pos, e);
}

proof fn lemma_literal_kinds<N>(l: Literal<N>)
    ensures
        literal_token(l).0 == TokenKind::Number || literal_token(l).0 == TokenKind::String
            || literal_token(l).0 == TokenKind::True || literal_token(l).0 == TokenKind::False
            || literal_token(l).0 == TokenKind::Nil,
{
}

/// primary := literal | IDENTIFIER | '(' expression ')'
fn primary<N: Number>(tokens: &Vec<Token>, lines: &Vec<u64>, pos: usize) -> (r: Result<
    (Expr<N>, usize),
    SyntaxError,
>)
    ensures
        parsed_expr(tokens@, lines@, pos as int, 8, r),
        complete(tokens@, pos as int, 8, r),
    decreases tokens@.len() - pos, 0int,
{
    let ghost t = tokens@;
    if pos >= tokens.len() {
        proof {
            assert forall|e: Expr<N>| #[trigger] spelled_at(t, pos as int, 8, e) implies false by {
                lemma_first(t, pos as int, e);
            }
        }
        return Err(unexpected("an expression", tokens, lines, pos));
    }
    proof {
        lemma_erased_one(tokens@, pos as int);
    }
    let lit: Literal<N> = match &tokens[pos] {
        Token::True => Literal::True,
        Token::False => Literal::False,
        Token::Nil => Literal::Nil,
        Token::Number(text) => Literal::Number(N::from_lexeme(text.as_str())),
        Token::String(text) => Literal::String(text.clone()),
        Token::Identifier(name) => {
            let r = Expr::Variable(name.clone());
            assert(flatten(r) =~= erased(tokens@, pos as int, pos + 1));
            let res = Ok((r, pos + 1));
            proof {
                assert forall|e: Expr<N>| #[trigger] spelled_at(t, pos as int, 8, e) implies res is Ok
                    && res->Ok_0.1 == pos + flatten(e).len() && same_shape(res->Ok_0.0, e) by {
                    lemma_primary_single(t, pos as int, e);
                }
            }
            return res;
        },
        Token::LeftParen => {
            let ghost start = pos + 1;
            let (inner, q) = match parse_expression(tokens, lines, pos + 1) {
                Ok(x) => x,
                Err(e) => {
                    proof {
                        assert forall|e: Expr<N>| #[trigger] spelled_at(t, pos as int, 8, e) implies false by {
                            lemma_primary_grouping(t, pos as int, e);
                            assert(spelled_at(t, start, 0, *e->Grouping_0));
                        }
                    }
                    return Err(e);
                },
            };
            let q2 = match expect(tokens, lines, q, TokenKind::RightParen) {
                Ok(n) => n,
                Err(e) => {
                    proof {
                        assert forall|e: Expr<N>| #[trigger] spelled_at(t, pos as int, 8, e) implies false by {
                            lemma_primary_grouping(t, pos as int, e);
                            assert(spelled_at(t, start, 0, *e->Grouping_0));
                        }
                    }
                    return Err(e);
                },
            };
            proof {
                lemma_fixed_text(tokens@[pos as int]);
                lemma_fixed_text(tokens@[q as int]);
                lemma_erased_one(tokens@, q as int);
                lemma_erased_concat(tokens@, pos as int, pos + 1, q as int);
                lemma_erased_concat(tokens@, pos as int, q as int, q2 as int);
            }
            let ghost inner_v = inner;
            let r = Expr::Grouping(Box::new(inner));
            assert(flatten(r) =~= erased(tokens@, pos as int, q2 as int));
            let res = Ok((r, q2));
            proof {
                assert forall|e: Expr<N>| #[trigger] spelled_at(t, pos as int, 8, e) implies res is Ok
                    && res->Ok_0.1 == pos + flatten(e).len() && same_shape(res->Ok_0.0, e) by {
                    lemma_primary_grouping(t, pos as int, e);
                    assert(spelled_at(t, start, 0, *e->Grouping_0));
                }
            }
            return res;
        },
        _ => {
            proof {
                assert forall|e: Expr<N>| #[trigger] spelled_at(t, pos as int, 8, e) implies false by {
                    lemma_primary_single(t, pos as int, e);
                    if e is Literal {
                        lemma_literal_kinds(e->Literal_0);
                    }
                }
            }
            return Err(unexpected("an expression", tokens, lines, pos));
        },
    };
    assert(literal_token(lit) == erase_number(tokens@[pos as int]@));
    let r = Expr::Literal(lit);
    assert(flatten(r) =~= erased(tokens@, pos as int, pos + 1));
    let res = Ok((r, pos + 1));
    proof {
        assert forall|e: Expr<N>| #[trigger] spelled_at(t, pos as int, 8, e) implies res is Ok
            && res->Ok_0.1 == pos + flatten(e).len() && same_shape(res->Ok_0.0, e) by {
            lemma_primary_single(t, pos as int, e);
        }
    }
    res
}

/// The line a statement reports its runtime errors on.
pub open spec fn stmt_line<N>(s: Stmt<N>) -> u64 {
    match s {
        Stmt::Block(_) => 1,
        Stmt::Expression(_, l) => l,
        Stmt::If { line, .. } => line,
        Stmt::Print(_, l) => l,
        Stmt::Var(_, _, l) => l,
        Stmt::While(_, _, l) => l,
    }
}

/// How a statement tree is written out in tokens: the tree alone does not say
/// whether a `var` had an initializer, or whether a block came from a `for`.
pub enum Spelling {
    /// `e ;`, `print e ;`, `var x = e ;`
    Plain,
    /// `var x ;`
    Bare,
    /// `while (c) s`, `if (c) s`
    Body(Box<Spelling>),
    /// `if (c) s else s`
    Branches(Box<Spelling>, Box<Spelling>),
    /// `{ s* }`
    Braces(Seq<Spelling>),
    /// `for (init? ; cond? ; incr?) body`, with the initializer's spelling and
    /// whether the condition and the increment are written.
    For(Option<Box<Spelling>>, bool, bool, Box<Spelling>),
}

pub open spec fn tok(k: TokenKind) -> Seq<TokenView> {
    seq![fixed_view(k)]
}

/// The tokens that write `s` out as `h` says.
pub open spec fn stmt_text<N>(s: Stmt<N>, h: Spelling) -> Seq<TokenView>
    decreases s,
{
    match s {
        Stmt::Expression(e, _) => flatten(e) + tok(TokenKind::SemiColon),
        Stmt::Print(e, _) => tok(TokenKind::Print) + flatten(e) + tok(TokenKind::SemiColon),
        Stmt::Var(name, e, _) => if h is Bare {
            tok(TokenKind::Var) + seq![(TokenKind::Identifier, name@)] + tok(TokenKind::SemiColon)
        } else {
            tok(TokenKind::Var) + seq![(TokenKind::Identifier, name@)] + tok(TokenKind::Equal)
                + flatten(e) + tok(TokenKind::SemiColon)
        },
        Stmt::While(c, b, _) => match h {
            Spelling::Body(hb) => tok(TokenKind::While) + tok(TokenKind::LeftParen) + flatten(c) + tok(
                TokenKind::RightParen,
            ) + stmt_text(*b, *hb),
            _ => Seq::empty(),
        },
        Stmt::If { condition, then_stmt, else_stmt, .. } => {
            let head = tok(TokenKind::If) + tok(TokenKind::LeftParen) + flatten(condition) + tok(
                TokenKind::RightParen,
            );
            match h {
                Spelling::Body(hb) => head + stmt_text(*then_stmt, *hb),
                Spelling::Branches(h1, h2) => match else_stmt {
                    Some(el) => head + stmt_text(*then_stmt, *h1) + tok(TokenKind::Else) + stmt_text(
                        *el,
                        *h2,
                    ),
                    None => Seq::empty(),
                },
                _ => Seq::empty(),
            }
        },
        Stmt::Block(v) => match h {
            Spelling::Braces(hs) => tok(TokenKind::LeftBrace) + stmts_text(v@, hs, v@.len() as int)
                + tok(TokenKind::RightBrace),
            Spelling::For(hi, cw, iw, hb) => {
                let outer = v@;
                if outer.len() >= 1 && outer.last() is While {
                    let w = outer.last();
                    let c = w->While_0;
                    let bb = *w->While_1;
                    if bb is Block && bb->Block_0@.len() >= 1 {
                        let inner = bb->Block_0@;
                        let init = match hi {
                            Some(hh) => if outer.len() == 2 {
                                stmt_text(outer[0], *hh)
                            } else {
                                Seq::empty()
                            },
                            None => tok(TokenKind::SemiColon),
                        };
                        let cond = if cw {
                            flatten(c) + tok(TokenKind::SemiColon)
                        } else {
                            tok(TokenKind::SemiColon)
                        };
                        let incr = if iw && inner.len() == 2 && inner[1] is Expression {
                            flatten(inner[1]->Expression_0)
                        } else {
                            Seq::empty()
                        };
                        tok(TokenKind::For) + tok(TokenKind::LeftParen) + init + cond + incr + tok(
                            TokenKind::RightParen,
                        ) + stmt_text(inner[0], *hb)
                    } else {
                        Seq::empty()
                    }
                } else {
                    Seq::empty()
                }
            },
            _ => Seq::empty(),
        },
    }
}

/// The tokens of the first `n` statements of `v`, written as `hs` says.
pub open spec fn stmts_text<N>(v: Seq<Stmt<N>>, hs: Seq<Spelling>, n: int) -> Seq<TokenView>
    decreases v, n,
{
    if 0 < n <= v.len() && n <= hs.len() {
        stmts_text(v, hs, n - 1) + stmt_text(v[n - 1], hs[n - 1])
    } else {
        Seq::empty()
    }
}

/// The text of `s` written as `h` ends with an `if` that has no `else`.
pub open spec fn open_end<N>(s: Stmt<N>, h: Spelling) -> bool
    decreases s,
{
    match s {
        Stmt::While(_, b, _) => match h {
            Spelling::Body(hb) => open_end(*b, *hb),
            _ => false,
        },
        Stmt::If { else_stmt, .. } => match h {
            Spelling::Body(_) => true,
            Spelling::Branches(_, h2) => match else_stmt {
                Some(el) => open_end(*el, *h2),
                None => false,
            },
            _ => false,
        },
        Stmt::Block(v) => match h {
            Spelling::For(_, _, _, hb) => if v@.len() >= 1 && v@.last() is While && (*v@.last()->While_1) is Block
                && (*v@.last()->While_1)->Block_0@.len() >= 1 {
                open_end((*v@.last()->While_1)->Block_0@[0], *hb)
            } else {
                false
            },
            _ => false,
        },
        _ => false,
    }
}

/// `h` is a spelling of `s` that the grammar reads back as `s`: it matches the
/// tree's shape (a `for` only where the tree has the rewritten shape, a bare
/// `var` only with a `nil` initializer, an omitted condition only for `true`),
/// and an `if` before an `else` has its own `else`.
pub open spec fn fits<N>(s: Stmt<N>, h: Spelling) -> bool
    decreases s,
{
    match s {
        Stmt::Expression(..) | Stmt::Print(..) => h is Plain,
        Stmt::Var(_, e, _) => h is Plain || (h is Bare && e == Expr::<N>::Literal(Literal::Nil)),
        Stmt::While(_, b, _) => match h {
            Spelling::Body(hb) => fits(*b, *hb),
            _ => false,
        },
        Stmt::If { then_stmt, else_stmt, .. } => match h {
            Spelling::Body(hb) => else_stmt is None && fits(*then_stmt, *hb),
            Spelling::Branches(h1, h2) => match else_stmt {
                Some(el) => fits(*then_stmt, *h1) && !open_end(*then_stmt, *h1) && fits(*el, *h2),
                None => false,
            },
            _ => false,
        },
        Stmt::Block(v) => match h {
            Spelling::Braces(hs) => hs.len() == v@.len() && all_fit(v@, hs, v@.len() as int),
            Spelling::For(hi, cw, iw, hb) => {
                let outer = v@;
                &&& outer.len() == (if hi is Some { 2int } else { 1int })
                &&& outer.last() is While
                &&& (*outer.last()->While_1) is Block
                &&& ({
                    let c = outer.last()->While_0;
                    let inner = (*outer.last()->While_1)->Block_0@;
                    &&& inner.len() == (if iw { 2int } else { 1int })
                    &&& (iw ==> inner[1] is Expression)
                    &&& (!cw ==> c == Expr::<N>::Literal(Literal::True))
                    &&& fits(inner[0], *hb)
                    &&& match hi {
                        Some(hh) => (outer[0] is Var || outer[0] is Expression) && fits(outer[0], *hh),
                        None => true,
                    }
                })
            },
            _ => false,
        },
    }
}

pub open spec fn all_fit<N>(v: Seq<Stmt<N>>, hs: Seq<Spelling>, n: int) -> bool
    decreases v, n,
{
    if 0 < n <= v.len() && n <= hs.len() {
        all_fit(v, hs, n - 1) && fits(v[n - 1], hs[n - 1])
    } else {
        true
    }
}

/// The tokens from `pos` write `s` out as `h` says, and the token after them
/// does not extend it (no `else` after an open `if`).
pub open spec fn stmt_spelled_at<N>(t: Seq<Token>, pos: int, s: Stmt<N>, h: Spelling) -> bool {
    let text = stmt_text(s, h);
    &&& fits(s, h)
    &&& stmt_well_formed(s)
    &&& 0 <= pos
    &&& pos + text.len() <= t.len()
    &&& erased(t, pos, pos + text.len()) == text
    &&& (open_end(s, h) ==> kind_at(t, pos + text.len()) != TokenKind::Else)
}

/// The two statements are equal but for their lines and the values of their
/// number literals.
pub open spec fn stmt_same<N>(a: Stmt<N>, b: Stmt<N>) -> bool
    decreases a,
{
    match a {
        Stmt::Expression(e, _) => b is Expression && same_shape(e, b->Expression_0),
        Stmt::Print(e, _) => b is Print && same_shape(e, b->Print_0),
        Stmt::Var(n, e, _) => b is Var && n@ == b->Var_0@ && same_shape(e, b->Var_1),
        Stmt::While(c, body, _) => b is While && same_shape(c, b->While_0) && stmt_same(*body, *b->While_1),
        Stmt::If { condition, then_stmt, else_stmt, .. } => b is If && same_shape(condition, b->If_condition)
            && stmt_same(*then_stmt, *b->If_then_stmt) && match else_stmt {
            Some(x) => b->If_else_stmt is Some && stmt_same(*x, *b->If_else_stmt->Some_0),
            None => b->If_else_stmt is None,
        },
        Stmt::Block(v) => b is Block && v@.len() == b->Block_0@.len() && all_same(
            v@,
            b->Block_0@,
            v@.len() as int,
        ),
    }
}

pub open spec fn all_same<N>(v: Seq<Stmt<N>>, w: Seq<Stmt<N>>, n: int) -> bool
    decreases v, n,
{
    if 0 < n <= v.len() && n <= w.len() {
        all_same(v, w, n - 1) && stmt_same(v[n - 1], w[n - 1])
    } else {
        true
    }
}

/// What a statement parse at `pos` owes: wherever the tokens from `pos` write
/// out a statement, the parse succeeds, reads exactly those tokens and gives
/// that statement.
pub open spec fn stmt_complete<N>(t: Seq<Token>, pos: int, r: Result<(Stmt<N>, usize), SyntaxError>) -> bool {
    forall|s: Stmt<N>, h: Spelling|
        #[trigger] stmt_spelled_at(t, pos, s, h) ==> r is Ok && r->Ok_0.1 == pos + stmt_text(
            s,
            h,
        ).len() && stmt_same(r->Ok_0.0, s)
}

proof fn lemma_piece(t: Seq<Token>, pos: int, text: Seq<TokenView>, a: int, b: int)
    requires
        0 <= pos,
        pos + text.len() <= t.len(),
        erased(t, pos, pos + text.len()) == text,
        0 <= a <= b <= text.len(),
    ensures
        erased(t, pos + a, pos + b) == text.subrange(a, b),
{
    lemma_erased_sub(t, pos, pos + a, pos + b, pos + text.len());
}

proof fn lemma_tok(t: Seq<Token>, pos: int, text: Seq<TokenView>, a: int)
    requires
        0 <= pos,
        pos + text.len() <= t.len(),
        erased(t, pos, pos + text.len()) == text,
        0 <= a < text.len(),
    ensures
        erase_number(t[pos + a]@) == text[a],
        kind_at(t, pos + a) == text[a].0,
{
    assert(erased(t, pos, pos + text.len())[a] == erase_number(t[pos + a]@));
}

/// The first token of an expression of the grammar.
proof fn lemma_expr_first<N>(e: Expr<N>)
    requires
        well_formed(e),
    ensures
        flatten(e).len() >= 1,
        ({
            let k = flatten(e)[0].0;
            k == TokenKind::Number || k == TokenKind::String || k == TokenKind::True || k
                == TokenKind::False || k == TokenKind::Nil || k == TokenKind::Identifier || k
                == TokenKind::LeftParen || k == TokenKind::Bang || k == TokenKind::Minus
        }),
    decreases e,
{
    lemma_flatten_nonempty(e);
    match e {
        Expr::Binary { left, .. } => {
            lemma_expr_first(*left);
            assert(flatten(e)[0] == flatten(*left)[0]);
        },
        Expr::Logical { left, .. } => {
            lemma_expr_first(*left);
            assert(flatten(e)[0] == flatten(*left)[0]);
        },
        _ => {},
    }
}

/// The first token of a statement's text names its form.
proof fn lemma_stmt_first<N>(s: Stmt<N>, h: Spelling)
    requires
        fits(s, h),
        stmt_well_formed(s),
    ensures
        stmt_text(s, h).len() >= 1,
        ({
            let k = stmt_text(s, h)[0].0;
            &&& k != TokenKind::Else && k != TokenKind::RightBrace && k != TokenKind::EOF
            &&& k != TokenKind::SemiColon && k != TokenKind::RightParen
            &&& (k == TokenKind::Print) == (s is Print)
            &&& (k == TokenKind::Var) == (s is Var)
            &&& (k == TokenKind::While) == (s is While)
            &&& (k == TokenKind::If) == (s is If)
            &&& (k == TokenKind::LeftBrace) == (s is Block && h is Braces)
            &&& (k == TokenKind::For) == (s is Block && h is For)
            &&& (s is Block ==> (h is Braces || h is For))
        }),
{
    match s {
        Stmt::Expression(e, _) => {
            lemma_expr_first(e);
            assert(stmt_text(s, h)[0] == flatten(e)[0]);
        },
        _ => {},
    }
}

proof fn lemma_stmts_prefix<N>(v: Seq<Stmt<N>>, hs: Seq<Spelling>, i: int, n: int)
    requires
        0 <= i <= n <= v.len(),
        n <= hs.len(),
    ensures
        stmts_text(v, hs, i) == stmts_text(v, hs, n).subrange(0, stmts_text(v, hs, i).len() as int),
        stmts_text(v, hs, i).len() <= stmts_text(v, hs, n).len(),
    decreases n - i,
{
    if i < n {
        lemma_stmts_prefix(v, hs, i, n - 1);
        assert(stmts_text(v, hs, n) == stmts_text(v, hs, n - 1) + stmt_text(v[n - 1], hs[n - 1]));
        assert(stmts_text(v, hs, i) =~= stmts_text(v, hs, n).subrange(0, stmts_text(v, hs, i).len() as int));
    }
}

proof fn lemma_all_fit<N>(v: Seq<Stmt<N>>, hs: Seq<Spelling>, n: int, i: int)
    requires
        all_fit(v, hs, n),
        0 <= i < n <= v.len(),
        n <= hs.len(),
    ensures
        fits(v[i], hs[i]),
    decreases n,
{
    if i < n - 1 {
        lemma_all_fit(v, hs, n - 1, i);
    }
}

proof fn lemma_all_wf<N>(v: Seq<Stmt<N>>, n: int, i: int)
    requires
        all_well_formed(v, n),
        0 <= i < n <= v.len(),
    ensures
        stmt_well_formed(v[i]),
    decreases n,
{
    if i < n - 1 {
        lemma_all_wf(v, n - 1, i);
    }
}

proof fn lemma_all_same_push<N>(w: Seq<Stmt<N>>, x: Stmt<N>, v: Seq<Stmt<N>>, n: int)
    requires
        0 <= n <= w.len(),
    ensures
        all_same(w.push(x), v, n) == all_same(w, v, n),
    decreases n,
{
    if n > 0 {
        lemma_all_same_push(w, x, v, n - 1);
        assert(w.push(x)[n - 1] == w[n - 1]);
    }
}

/// An expression written at `pos` and followed by `;` or `)` is spelled there.
proof fn lemma_expr_piece<N>(t: Seq<Token>, pos: int, text: Seq<TokenView>, a: int, e: Expr<N>)
    requires
        0 <= pos,
        pos + text.len() <= t.len(),
        erased(t, pos, pos + text.len()) == text,
        0 <= a,
        a + flatten(e).len() < text.len(),
        text.subrange(a, a + flatten(e).len()) == flatten(e),
        text[a + flatten(e).len()].0 == TokenKind::SemiColon || text[a + flatten(e).len()].0
            == TokenKind::RightParen,
        well_formed(e),
    ensures
        spelled_at(t, pos + a, 0, e),
{
    lemma_piece(t, pos, text, a, a + flatten(e).len());
    lemma_tok(t, pos, text, a + flatten(e).len());
}

/// The keywords and punctuation that open a statement other than an
/// expression statement.
pub open spec fn opens_statement(k: TokenKind) -> bool {
    k == TokenKind::Print || k == TokenKind::Var || k == TokenKind::While || k == TokenKind::If
        || k == TokenKind::LeftBrace || k == TokenKind::For
}

proof fn lemma_print_form<N>(t: Seq<Token>, pos: int, s: Stmt<N>, h: Spelling)
    requires
        stmt_spelled_at(t, pos, s, h),
        kind_at(t, pos) == TokenKind::Print,
    ensures
        s is Print,
        spelled_at(t, pos + 1, 0, s->Print_0),
        kind_at(t, pos + 1 + flatten(s->Print_0).len()) == TokenKind::SemiColon,
        stmt_text(s, h).len() == flatten(s->Print_0).len() + 2,
{
    let text = stmt_text(s, h);
    lemma_stmt_first(s, h);
    lemma_tok(t, pos, text, 0);
    let e = s->Print_0;
    let n = flatten(e).len() as int;
    assert(text.subrange(1, 1 + n) =~= flatten(e));
    lemma_expr_piece(t, pos, text, 1, e);
    lemma_tok(t, pos, text, 1 + n);
}

proof fn lemma_expression_form<N>(t: Seq<Token>, pos: int, s: Stmt<N>, h: Spelling)
    requires
        stmt_spelled_at(t, pos, s, h),
        !opens_statement(kind_at(t, pos)),
    ensures
        s is Expression,
        spelled_at(t, pos, 0, s->Expression_0),
        kind_at(t, pos + flatten(s->Expression_0).len()) == TokenKind::SemiColon,
        stmt_text(s, h).len() == flatten(s->Expression_0).len() + 1,
{
    let text = stmt_text(s, h);
    lemma_stmt_first(s, h);
    lemma_tok(t, pos, text, 0);
    let e = s->Expression_0;
    let n = flatten(e).len() as int;
    assert(text.subrange(0, n) =~= flatten(e));
    lemma_expr_piece(t, pos, text, 0, e);
    lemma_tok(t, pos, text, n);
}

proof fn lemma_var_form<N>(t: Seq<Token>, pos: int, s: Stmt<N>, h: Spelling)
    requires
        stmt_spelled_at(t, pos, s, h),
        kind_at(t, pos) == TokenKind::Var,
    ensures
        s is Var,
        pos + 1 < t.len(),
        t[pos + 1]@ == (TokenKind::Identifier, s->Var_0@),
        h is Bare ==> kind_at(t, pos + 2) == TokenKind::SemiColon && s->Var_1 == Expr::<N>::Literal(
            Literal::Nil,
        ) && stmt_text(s, h).len() == 3,
        !(h is Bare) ==> kind_at(t, pos + 2) == TokenKind::Equal && spelled_at(t, pos + 3, 0, s->Var_1)
            && kind_at(t, pos + 3 + flatten(s->Var_1).len()) == TokenKind::SemiColon && stmt_text(
            s,
            h,
        ).len() == flatten(s->Var_1).len() + 4,
{
    let text = stmt_text(s, h);
    lemma_stmt_first(s, h);
    lemma_tok(t, pos, text, 0);
    lemma_tok(t, pos, text, 1);
    lemma_tok(t, pos, text, 2);
    if !(h is Bare) {
        let e = s->Var_1;
        let n = flatten(e).len() as int;
        assert(text.subrange(3, 3 + n) =~= flatten(e));
        lemma_expr_piece(t, pos, text, 3, e);
        lemma_tok(t, pos, text, 3 + n);
    }
}

proof fn lemma_while_form<N>(t: Seq<Token>, pos: int, s: Stmt<N>, h: Spelling)
    requires
        stmt_spelled_at(t, pos, s, h),
        kind_at(t, pos) == TokenKind::While,
    ensures
        s is While,
        h is Body,
        kind_at(t, pos + 1) == TokenKind::LeftParen,
        spelled_at(t, pos + 2, 0, s->While_0),
        kind_at(t, pos + 2 + flatten(s->While_0).len()) == TokenKind::RightParen,
        stmt_spelled_at(t, pos + 3 + flatten(s->While_0).len(), *s->While_1, *h->Body_0),
        stmt_text(s, h).len() == 3 + flatten(s->While_0).len() + stmt_text(*s->While_1, *h->Body_0).len(),
{
    let text = stmt_text(s, h);
    lemma_stmt_first(s, h);
    lemma_tok(t, pos, text, 0);
    lemma_tok(t, pos, text, 1);
    let c = s->While_0;
    let n = flatten(c).len() as int;
    let bt = stmt_text(*s->While_1, *h->Body_0);
    assert(text.subrange(2, 2 + n) =~= flatten(c));
    assert(text[2 + n] == fixed_view(TokenKind::RightParen));
    lemma_expr_piece(t, pos, text, 2, c);
    lemma_tok(t, pos, text, 2 + n);
    assert(text.subrange(3 + n, text.len() as int) =~= bt);
    lemma_piece(t, pos, text, 3 + n, text.len() as int);
}

proof fn lemma_if_form<N>(t: Seq<Token>, pos: int, s: Stmt<N>, h: Spelling)
    requires
        stmt_spelled_at(t, pos, s, h),
        kind_at(t, pos) == TokenKind::If,
    ensures
        s is If,
        h is Body || h is Branches,
        kind_at(t, pos + 1) == TokenKind::LeftParen,
        spelled_at(t, pos + 2, 0, s->If_condition),
        kind_at(t, pos + 2 + flatten(s->If_condition).len()) == TokenKind::RightParen,
        ({
            let q = pos + 3 + flatten(s->If_condition).len();
            let h1 = if h is Body { *h->Body_0 } else { *h->Branches_0 };
            let tt = stmt_text(*s->If_then_stmt, h1);
            &&& stmt_spelled_at(t, q, *s->If_then_stmt, h1)
            &&& (h is Body ==> s->If_else_stmt is None && kind_at(t, q + tt.len()) != TokenKind::Else
                && stmt_text(s, h).len() == q + tt.len() - pos)
            &&& (h is Branches ==> s->If_else_stmt is Some && kind_at(t, q + tt.len()) == TokenKind::Else
                && stmt_spelled_at(t, q + tt.len() + 1, *s->If_else_stmt->Some_0, *h->Branches_1)
                && stmt_text(s, h).len() == q + tt.len() + 1 + stmt_text(
                *s->If_else_stmt->Some_0,
                *h->Branches_1,
            ).len() - pos)
        }),
{
    let text = stmt_text(s, h);
    lemma_stmt_first(s, h);
    lemma_tok(t, pos, text, 0);
    lemma_tok(t, pos, text, 1);
    let c = s->If_condition;
    let n = flatten(c).len() as int;
    assert(text.subrange(2, 2 + n) =~= flatten(c));
    assert(text[2 + n] == fixed_view(TokenKind::RightParen));
    lemma_expr_piece(t, pos, text, 2, c);
    lemma_tok(t, pos, text, 2 + n);
    let h1 = if h is Body { *h->Body_0 } else { *h->Branches_0 };
    let tt = stmt_text(*s->If_then_stmt, h1);
    let m = tt.len() as int;
    assert(text.subrange(3 + n, 3 + n + m) =~= tt);
    lemma_piece(t, pos, text, 3 + n, 3 + n + m);
    if h is Branches {
        let et = stmt_text(*s->If_else_stmt->Some_0, *h->Branches_1);
        assert(text[3 + n + m] == fixed_view(TokenKind::Else));
        lemma_tok(t, pos, text, 3 + n + m);
        assert(text.subrange(4 + n + m, text.len() as int) =~= et);
        lemma_piece(t, pos, text, 4 + n + m, text.len() as int);
    }
}

/// Inside a block written `{ s* }` from `pos`: statement `i` starts after the
/// first `i`, and `}` comes after the last.
proof fn lemma_block_form<N>(t: Seq<Token>, pos: int, s: Stmt<N>, h: Spelling, i: int)
    requires
        stmt_spelled_at(t, pos, s, h),
        kind_at(t, pos) == TokenKind::LeftBrace,
        0 <= i <= s->Block_0@.len(),
    ensures
        s is Block,
        h is Braces,
        h->Braces_0.len() == s->Block_0@.len(),
        ({
            let v = s->Block_0@;
            let hs = h->Braces_0;
            let p = pos + 1 + stmts_text(v, hs, i).len();
            &&& i < v.len() ==> stmt_spelled_at(t, p, v[i], hs[i]) && kind_at(t, p) != TokenKind::RightBrace
                && kind_at(t, p) != TokenKind::EOF && stmts_text(v, hs, i + 1).len() == stmts_text(v, hs, i).len()
                + stmt_text(v[i], hs[i]).len()
            &&& i == v.len() ==> kind_at(t, p) == TokenKind::RightBrace && stmt_text(s, h).len() == p + 1 - pos
        }),
{
    let text = stmt_text(s, h);
    lemma_stmt_first(s, h);
    lemma_tok(t, pos, text, 0);
    let v = s->Block_0@;
    let hs = h->Braces_0;
    let n = v.len() as int;
    let all = stmts_text(v, hs, n);
    lemma_stmts_prefix(v, hs, i, n);
    let p = pos + 1 + stmts_text(v, hs, i).len();
    if i < n {
        lemma_stmts_prefix(v, hs, i + 1, n);
        let ti = stmt_text(v[i], hs[i]);
        let a = 1 + stmts_text(v, hs, i).len() as int;
        assert(stmts_text(v, hs, i + 1) == stmts_text(v, hs, i) + ti);
        assert(text.subrange(a, a + ti.len()) =~= ti) by {
            let pre = stmts_text(v, hs, i + 1);
            assert(pre == all.subrange(0, pre.len() as int));
            assert forall|j: int| 0 <= j < ti.len() implies #[trigger] text.subrange(a, a + ti.len())[j]
                == ti[j] by {
                assert(text[a + j] == all[a - 1 + j]);
                assert(all[a - 1 + j] == pre[a - 1 + j]);
                assert(pre[a - 1 + j] == ti[j]);
            }
        }
        lemma_piece(t, pos, text, a, a + ti.len());
        lemma_all_fit(v, hs, n, i);
        lemma_all_wf(v, n, i);
        lemma_stmt_first(v[i], hs[i]);
        assert(ti[0] == text[a]);
        lemma_tok(t, pos, text, a);
        if open_end(v[i], hs[i]) {
            let b = a + ti.len() as int;
            if i + 1 < n {
                lemma_stmts_prefix(v, hs, i + 2, n);
                lemma_all_fit(v, hs, n, i + 1);
                lemma_all_wf(v, n, i + 1);
                lemma_stmt_first(v[i + 1], hs[i + 1]);
                let tj = stmt_text(v[i + 1], hs[i + 1]);
                assert(stmts_text(v, hs, i + 2) == stmts_text(v, hs, i + 1) + tj);
                assert(text[b] == all[b - 1]);
                assert(all[b - 1] == stmts_text(v, hs, i + 2)[b - 1]);
                assert(text[b] == tj[0]);
            } else {
                assert(text[b] == fixed_view(TokenKind::RightBrace));
            }
            lemma_tok(t, pos, text, b);
        }
    } else {
        assert(all.len() == stmts_text(v, hs, i).len());
        lemma_tok(t, pos, text, p - pos);
    }
}

/// The pieces of a `for` written from `pos`: where the initializer, the
/// condition, the increment and the body start.
pub open spec fn for_init_len<N>(s: Stmt<N>, h: Spelling) -> int {
    match h->For_0 {
        Some(hh) => stmt_text(s->Block_0@[0], *hh).len() as int,
        None => 1,
    }
}

pub open spec fn for_cond<N>(s: Stmt<N>) -> Expr<N> {
    s->Block_0@.last()->While_0
}

pub open spec fn for_inner<N>(s: Stmt<N>) -> Seq<Stmt<N>> {
    (*s->Block_0@.last()->While_1)->Block_0@
}

pub open spec fn for_cond_len<N>(s: Stmt<N>, h: Spelling) -> int {
    if h->For_1 {
        flatten(for_cond(s)).len() as int + 1
    } else {
        1
    }
}

pub open spec fn for_incr_len<N>(s: Stmt<N>, h: Spelling) -> int {
    if h->For_2 {
        flatten(for_inner(s)[1]->Expression_0).len() as int
    } else {
        0
    }
}

#[verifier::rlimit(100)]
proof fn lemma_for_form<N>(t: Seq<Token>, pos: int, s: Stmt<N>, h: Spelling)
    requires
        stmt_spelled_at(t, pos, s, h),
        kind_at(t, pos) == TokenKind::For,
    ensures
        s is Block,
        h is For,
        s->Block_0@.len() == (if h->For_0 is Some { 2int } else { 1int }),
        s->Block_0@.last() is While,
        (*s->Block_0@.last()->While_1) is Block,
        for_inner(s).len() == (if h->For_2 { 2int } else { 1int }),
        h->For_2 ==> for_inner(s)[1] is Expression,
        kind_at(t, pos + 1) == TokenKind::LeftParen,
        ({
            let a = pos + 2;
            let c0 = a + for_init_len(s, h);
            let i0 = c0 + for_cond_len(s, h);
            let b0 = i0 + for_incr_len(s, h) + 1;
            &&& (h->For_0 is None ==> kind_at(t, a) == TokenKind::SemiColon)
            &&& (h->For_0 is Some ==> stmt_spelled_at(t, a, s->Block_0@[0], *h->For_0->Some_0)
                && (s->Block_0@[0] is Var || s->Block_0@[0] is Expression)
                && kind_at(t, a) != TokenKind::SemiColon
                && (kind_at(t, a) == TokenKind::Var) == (s->Block_0@[0] is Var)
                && (s->Block_0@[0] is Expression ==> !opens_statement(kind_at(t, a))))
            &&& (h->For_1 ==> spelled_at(t, c0, 0, for_cond(s)) && kind_at(t, c0) != TokenKind::SemiColon
                && kind_at(t, c0 + flatten(for_cond(s)).len()) == TokenKind::SemiColon)
            &&& (!h->For_1 ==> kind_at(t, c0) == TokenKind::SemiColon && for_cond(s) == Expr::<N>::Literal(
                Literal::True,
            ))
            &&& (h->For_2 ==> spelled_at(t, i0, 0, for_inner(s)[1]->Expression_0) && kind_at(t, i0)
                != TokenKind::RightParen)
            &&& kind_at(t, b0 - 1) == TokenKind::RightParen
            &&& stmt_spelled_at(t, b0, for_inner(s)[0], *h->For_3)
            &&& stmt_text(s, h).len() == b0 - pos + stmt_text(for_inner(s)[0], *h->For_3).len()
        }),
{
    let text = stmt_text(s, h);
    lemma_stmt_first(s, h);
    lemma_tok(t, pos, text, 0);
    lemma_tok(t, pos, text, 1);
    let outer = s->Block_0@;
    let w = outer.last();
    let c = w->While_0;
    let inner = for_inner(s);
    let a = 2int;
    let il = for_init_len(s, h);
    let cl = for_cond_len(s, h);
    let incl = for_incr_len(s, h);
    let bt = stmt_text(inner[0], *h->For_3);
    assert(all_well_formed(outer, outer.len() as int));
    lemma_all_wf(outer, outer.len() as int, outer.len() - 1);
    assert(stmt_well_formed(*w->While_1));
    lemma_all_wf(inner, inner.len() as int, 0);
    match h->For_0 {
        Some(hh) => {
            let it = stmt_text(outer[0], *hh);
            lemma_all_wf(outer, outer.len() as int, 0);
            assert(text.subrange(a, a + il) =~= it);
            lemma_piece(t, pos, text, a, a + il);
            lemma_stmt_first(outer[0], *hh);
            assert(text[a] == it[0]);
            lemma_tok(t, pos, text, a);
        },
        None => {
            lemma_tok(t, pos, text, a);
        },
    }
    let c0 = a + il;
    if h->For_1 {
        assert(text.subrange(c0, c0 + flatten(c).len()) =~= flatten(c));
        lemma_expr_piece(t, pos, text, c0, c);
        lemma_expr_first(c);
        lemma_tok(t, pos, text, c0);
        lemma_tok(t, pos, text, c0 + flatten(c).len());
    } else {
        lemma_tok(t, pos, text, c0);
    }
    let i0 = c0 + cl;
    if h->For_2 {
        let inc = inner[1]->Expression_0;
        lemma_all_wf(inner, inner.len() as int, 1);
        assert(text.subrange(i0, i0 + flatten(inc).len()) =~= flatten(inc));
        lemma_expr_piece(t, pos, text, i0, inc);
        lemma_expr_first(inc);
        lemma_tok(t, pos, text, i0);
    }
    let b0 = i0 + incl + 1;
    lemma_tok(t, pos, text, b0 - 1);
    assert(text.subrange(b0, b0 + bt.len()) =~= bt);
    lemma_piece(t, pos, text, b0, b0 + bt.len());
}

/// The tokens from `pos` write out the statements `v` as `hs` says, and then
/// `EOF` follows.
pub open spec fn program_spelled_at<N>(t: Seq<Token>, pos: int, v: Seq<Stmt<N>>, hs: Seq<Spelling>) -> bool {
    let text = stmts_text(v, hs, v.len() as int);
    &&& hs.len() == v.len()
    &&& all_fit(v, hs, v.len() as int)
    &&& all_well_formed(v, v.len() as int)
    &&& 0 <= pos
    &&& pos + text.len() <= t.len()
    &&& erased(t, pos, pos + text.len()) == text
    &&& kind_at(t, pos + text.len()) == TokenKind::EOF
}

proof fn lemma_program_form<N>(t: Seq<Token>, pos: int, v: Seq<Stmt<N>>, hs: Seq<Spelling>, i: int)
    requires
        program_spelled_at(t, pos, v, hs),
        0 <= i <= v.len(),
    ensures
        ({
            let p = pos + stmts_text(v, hs, i).len();
            &&& i < v.len() ==> stmt_spelled_at(t, p, v[i], hs[i]) && kind_at(t, p) != TokenKind::EOF
                && stmts_text(v, hs, i + 1).len() == stmts_text(v, hs, i).len() + stmt_text(v[i], hs[i]).len()
            &&& i == v.len() ==> kind_at(t, p) == TokenKind::EOF
        }),
{
    let n = v.len() as int;
    let all = stmts_text(v, hs, n);
    lemma_stmts_prefix(v, hs, i, n);
    if i < n {
        lemma_stmts_prefix(v, hs, i + 1, n);
        let ti = stmt_text(v[i], hs[i]);
        let a = stmts_text(v, hs, i).len() as int;
        assert(stmts_text(v, hs, i + 1) == stmts_text(v, hs, i) + ti);
        assert(all.subrange(a, a + ti.len()) =~= ti) by {
            let pre = stmts_text(v, hs, i + 1);
            assert(pre == all.subrange(0, pre.len() as int));
            assert forall|j: int| 0 <= j < ti.len() implies #[trigger] all.subrange(a, a + ti.len())[j]
                == ti[j] by {
                assert(all[a + j] == pre[a + j]);
            }
        }
        lemma_piece(t, pos, all, a, a + ti.len());
        lemma_all_fit(v, hs, n, i);
        lemma_all_wf(v, n, i);
        lemma_stmt_first(v[i], hs[i]);
        assert(ti[0] == all[a]);
        lemma_tok(t, pos, all, a);
        if open_end(v[i], hs[i]) {
            let b = a + ti.len() as int;
            if i + 1 < n {
                lemma_stmts_prefix(v, hs, i + 2, n);
                lemma_all_fit(v, hs, n, i + 1);
                lemma_all_wf(v, n, i + 1);
                lemma_stmt_first(v[i + 1], hs[i + 1]);
                let tj = stmt_text(v[i + 1], hs[i + 1]);
                assert(stmts_text(v, hs, i + 2) == stmts_text(v, hs, i + 1) + tj);
                assert(all[b] == stmts_text(v, hs, i + 2)[b]);
                assert(all[b] == tj[0]);
                lemma_tok(t, pos, all, b);
            }
        }
    }
}

/// What a parse of a statement at `pos` promises: on success it consumed at
/// least one token, every expression in it is one the grammar derives, and a
/// statement other than a block stands on the line of its first token; on
/// failure the error stands on the line of a token from `pos` on.
pub open spec fn parsed_stmt<N>(
    t: Seq<Token>,
    lines: Seq<u64>,
    pos: int,
    r: Result<(Stmt<N>, usize), SyntaxError>,
) -> bool {
    match r {
        Ok((s, next)) => pos < next <= t.len() && stmt_well_formed(s) && (!(s is Block)
            ==> stmt_line(s) == line_of(lines, pos)),
        Err(err) => error_line_from(lines, pos, err.line),
    }
}

/// The shape that `for` is rewritten to: `{ init? while (cond) { body incr? } }`.
pub open spec fn for_desugared<N>(s: Stmt<N>) -> bool {
    match s {
        Stmt::Block(outer) => {
            &&& 1 <= outer@.len() <= 2
            &&& outer@.len() == 2 ==> (outer@[0] is Var || outer@[0] is Expression)
            &&& match outer@.last() {
                Stmt::While(_, b, _) => match *b {
                    Stmt::Block(inner) => inner@.len() == 1 || (inner@.len() == 2
                        && inner@[1] is Expression),
                    _ => false,
                },
                _ => false,
            }
        },
        _ => false,
    }
}

/// statement := declaration | if | while | for | print | block | expression ';'
pub fn statement<N: Number>(tokens: &Vec<Token>, lines: &Vec<u64>, pos: usize) -> (r: Result<
    (Stmt<N>, usize),
    SyntaxError,
>)
    ensures
        parsed_stmt(tokens@, lines@, pos as int, r),
        stmt_complete(tokens@, pos as int, r),
    decreases tokens@.len() - pos, 3int,
{
    let r = if kind_at_exec(tokens, pos) == TokenKind::Var {
        declaration_statement(tokens, lines, pos)
    } else {
        non_declaration_statement(tokens, lines, pos)
    };
    r
}

/// declaration := 'var' IDENTIFIER ('=' expression)? ';'
fn declaration_statement<N: Number>(tokens: &Vec<Token>, lines: &Vec<u64>, pos: usize) -> (r: Result<
    (Stmt<N>, usize),
    SyntaxError,
>)
    ensures
        parsed_stmt(tokens@, lines@, pos as int, r),
        r is Ok ==> r->Ok_0.0 is Var,
        kind_at(tokens@, pos as int) == TokenKind::Var ==> stmt_complete(tokens@, pos as int, r),
    decreases tokens@.len() - pos, 1int,
{
    let ghost t = tokens@;
    let line = line_at(lines, pos);
    let p = match expect(tokens, lines, pos, TokenKind::Var) {
        Ok(n) => n,
        Err(e) => return Err(e),
    };
    let name = if p < tokens.len() {
        match &tokens[p] {
            Token::Identifier(name) => name.clone(),
            _ => {
                proof {
                    assert forall|s: Stmt<N>, h: Spelling| #[trigger] stmt_spelled_at(t, pos as int, s, h) implies false by {
                        lemma_var_form(t, pos as int, s, h);
                    }
                }
                return Err(unexpected("a variable name", tokens, lines, p));
            },
        }
    } else {
        proof {
            assert forall|s: Stmt<N>, h: Spelling| #[trigger] stmt_spelled_at(t, pos as int, s, h) implies false by {
                lemma_var_form(t, pos as int, s, h);
            }
        }
        return Err(unexpected("a variable name", tokens, lines, p));
    };
    let p = p + 1;
    let ghost after_name = p;
    let (init, p) = if kind_at_exec(tokens, p) == TokenKind::Equal {
        match parse_expression(tokens, lines, p + 1) {
            Ok(x) => x,
            Err(e) => {
                proof {
                    assert forall|s: Stmt<N>, h: Spelling| #[trigger] stmt_spelled_at(t, pos as int, s, h) implies false by {
                        lemma_var_form(t, pos as int, s, h);
                        assert(spelled_at(t, after_name + 1, 0, s->Var_1));
                    }
                }
                return Err(e);
            },
        }
    } else {
        (Expr::Literal(Literal::Nil), p)
    };
    let p = match expect(tokens, lines, p, TokenKind::SemiColon) {
        Ok(n) => n,
        Err(e) => {
            proof {
                assert forall|s: Stmt<N>, h: Spelling| #[trigger] stmt_spelled_at(t, pos as int, s, h) implies false by {
                    lemma_var_form(t, pos as int, s, h);
                    if !(h is Bare) {
                        assert(spelled_at(t, after_name + 1, 0, s->Var_1));
                    }
                }
            }
            return Err(e);
        },
    };
    let ghost init_v = init;
    let res = Ok((Stmt::Var(name, init, line), p));
    proof {
        assert forall|s: Stmt<N>, h: Spelling| #[trigger] stmt_spelled_at(t, pos as int, s, h) implies res is Ok
            && res->Ok_0.1 == pos + stmt_text(s, h).len() && stmt_same(res->Ok_0.0, s) by {
            lemma_var_form(t, pos as int, s, h);
            if !(h is Bare) {
                assert(spelled_at(t, after_name + 1, 0, s->Var_1));
            } else {
                assert(same_shape(init_v, s->Var_1));
            }
        }
    }
    res
}

/// Any statement but a declaration.
fn non_declaration_statement<N: Number>(tokens: &Vec<Token>, lines: &Vec<u64>, pos: usize) -> (r: Result<
    (Stmt<N>, usize),
    SyntaxError,
>)
    ensures
        parsed_stmt(tokens@, lines@, pos as int, r),
        kind_at(tokens@, pos as int) != TokenKind::Var ==> stmt_complete(tokens@, pos as int, r),
    decreases tokens@.len() - pos, 2int,
{
    let k = kind_at_exec(tokens, pos);
    if k == TokenKind::If {
        if_statement(tokens, lines, pos)
    } else if k == TokenKind::Print {
        print_statement(tokens, lines, pos)
    } else if k == TokenKind::While {
        while_statement(tokens, lines, pos)
    } else if k == TokenKind::For {
        for_statement(tokens, lines, pos)
    } else if k == TokenKind::LeftBrace {
        block(tokens, lines, pos)
    } else {
        expression_statement(tokens, lines, pos)
    }
}

/// for := 'for' '(' (declaration | expression ';' | ';') expression? ';'
/// expression? ')' statement, rewritten to
/// `{ init? while (cond or true) { body incr? } }`.
#[verifier::rlimit(100)]
fn for_statement<N: Number>(tokens: &Vec<Token>, lines: &Vec<u64>, pos: usize) -> (r: Result<
    (Stmt<N>, usize),
    SyntaxError,
>)
    ensures
        parsed_stmt(tokens@, lines@, pos as int, r),
        r is Ok ==> for_desugared(r->Ok_0.0),
        kind_at(tokens@, pos as int) == TokenKind::For ==> stmt_complete(tokens@, pos as int, r),
    decreases tokens@.len() - pos, 1int,
{
    let ghost t = tokens@;
    let line = line_at(lines, pos);
    let p = match expect(tokens, lines, pos, TokenKind::For) {
        Ok(n) => n,
        Err(e) => return Err(e),
    };
    let p = match expect(tokens, lines, p, TokenKind::LeftParen) {
        Ok(n) => n,
        Err(e) => {
            proof {
                assert forall|s: Stmt<N>, h: Spelling| #[trigger] stmt_spelled_at(t, pos as int, s, h) implies false by {
                    lemma_for_form(t, pos as int, s, h);
                }
            }
            return Err(e);
        },
    };
    let ghost a = p as int;
    let k = kind_at_exec(tokens, p);
    let (initializer, p): (Option<Stmt<N>>, usize) = if k == TokenKind::SemiColon {
        (None, p + 1)
    } else if k == TokenKind::Var {
        match declaration_statement(tokens, lines, p) {
            Ok((s, n)) => (Some(s), n),
            Err(e) => {
            proof {
                assert forall|s: Stmt<N>, h: Spelling| #[trigger] stmt_spelled_at(t, pos as int, s, h) implies false by {
                    lemma_for_form(t, pos as int, s, h);
                    if h->For_0 is Some {
                        assert(stmt_spelled_at(t, a, s->Block_0@[0], *h->For_0->Some_0));
                    }
                }
            }
            return Err(e);
            },
        }
    } else {
        match expression_statement(tokens, lines, p) {
            Ok((s, n)) => (Some(s), n),
            Err(e) => {
            proof {
                assert forall|s: Stmt<N>, h: Spelling| #[trigger] stmt_spelled_at(t, pos as int, s, h) implies false by {
                    lemma_for_form(t, pos as int, s, h);
                    if h->For_0 is Some {
                        assert(stmt_spelled_at(t, a, s->Block_0@[0], *h->For_0->Some_0));
                    }
                }
            }
            return Err(e);
            },
        }
    };
    let ghost c0 = p as int;
    let (condition, p): (Expr<N>, usize) = if kind_at_exec(tokens, p) == TokenKind::SemiColon {
        (Expr::Literal(Literal::True), p + 1)
    } else {
        let (c, n) = match parse_expression(tokens, lines, p) {
            Ok(x) => x,
            Err(e) => {
            proof {
                assert forall|s: Stmt<N>, h: Spelling| #[trigger] stmt_spelled_at(t, pos as int, s, h) implies false by {
                    lemma_for_form(t, pos as int, s, h);
                    if h->For_0 is Some {
                        assert(stmt_spelled_at(t, a, s->Block_0@[0], *h->For_0->Some_0));
                    }
                    if h->For_1 {
                        assert(spelled_at(t, c0, 0, for_cond(s)));
                    }
                }
            }
            return Err(e);
            },
        };
        match expect(tokens, lines, n, TokenKind::SemiColon) {
            Ok(n2) => (c, n2),
            Err(e) => {
            proof {
                assert forall|s: Stmt<N>, h: Spelling| #[trigger] stmt_spelled_at(t, pos as int, s, h) implies false by {
                    lemma_for_form(t, pos as int, s, h);
                    if h->For_0 is Some {
                        assert(stmt_spelled_at(t, a, s->Block_0@[0], *h->For_0->Some_0));
                    }
                    if h->For_1 {
                        assert(spelled_at(t, c0, 0, for_cond(s)));
                    }
                }
            }
            return Err(e);
            },
        }
    };
    let ghost i0 = p as int;
    let (increment, p): (Option<Expr<N>>, usize) = if kind_at_exec(tokens, p)
        == TokenKind::RightParen {
        (None, p + 1)
    } else {
        let (c, n) = match parse_expression(tokens, lines, p) {
            Ok(x) => x,
            Err(e) => {
            proof {
                assert forall|s: Stmt<N>, h: Spelling| #[trigger] stmt_spelled_at(t, pos as int, s, h) implies false by {
                    lemma_for_form(t, pos as int, s, h);
                    if h->For_0 is Some {
                        assert(stmt_spelled_at(t, a, s->Block_0@[0], *h->For_0->Some_0));
                    }
                    if h->For_1 {
                        assert(spelled_at(t, c0, 0, for_cond(s)));
                    }
                    if h->For_2 {
                        assert(spelled_at(t, i0, 0, for_inner(s)[1]->Expression_0));
                    }
                }
            }
            return Err(e);
            },
        };
        match expect(tokens, lines, n, TokenKind::RightParen) {
            Ok(n2) => (Some(c), n2),
            Err(e) => {
            proof {
                assert forall|s: Stmt<N>, h: Spelling| #[trigger] stmt_spelled_at(t, pos as int, s, h) implies false by {
                    lemma_for_form(t, pos as int, s, h);
                    if h->For_0 is Some {
                        assert(stmt_spelled_at(t, a, s->Block_0@[0], *h->For_0->Some_0));
                    }
                    if h->For_1 {
                        assert(spelled_at(t, c0, 0, for_cond(s)));
                    }
                    if h->For_2 {
                        assert(spelled_at(t, i0, 0, for_inner(s)[1]->Expression_0));
                    }
                }
            }
            return Err(e);
            },
        }
    };
    let ghost b0 = p as int;
    let (body, p) = match statement(tokens, lines, p) {
        Ok(x) => x,
        Err(e) => {
            proof {
                assert forall|s: Stmt<N>, h: Spelling| #[trigger] stmt_spelled_at(t, pos as int, s, h) implies false by {
                    lemma_for_form(t, pos as int, s, h);
                    if h->For_0 is Some {
                        assert(stmt_spelled_at(t, a, s->Block_0@[0], *h->For_0->Some_0));
                    }
                    if h->For_1 {
                        assert(spelled_at(t, c0, 0, for_cond(s)));
                    }
                    if h->For_2 {
                        assert(spelled_at(t, i0, 0, for_inner(s)[1]->Expression_0));
                    }
                    assert(stmt_spelled_at(t, b0, for_inner(s)[0], *h->For_3));
                }
            }
            return Err(e);
        },
    };
    let ghost init_g = initializer;
    let ghost cond_g = condition;
    let ghost incr_g = increment;
    let ghost body_g = body;
    let mut inner: Vec<Stmt<N>> = Vec::new();
    inner.push(body);
    match increment {
        Some(inc) => inner.push(Stmt::Expression(inc, line)),
        None => {},
    }
    proof {
        lemma_all_well_formed(inner@, inner@.len() as int);
    }
    let ghost inner_g = inner@;
    let inner_block = Stmt::Block(inner);
    assert(stmt_well_formed(inner_block));
    let ghost inner_block_g = inner_block;
    let looped = Stmt::While(condition, Box::new(inner_block), line);
    let ghost looped_g = looped;
    let mut outer: Vec<Stmt<N>> = Vec::new();
    match initializer {
        Some(init) => outer.push(init),
        None => {},
    }
    outer.push(looped);
    proof {
        lemma_all_well_formed(outer@, outer@.len() as int);
    }
    let ghost outer_g = outer@;
    let r = Stmt::Block(outer);
    assert(stmt_well_formed(r));
    let res = Ok((r, p));
    proof {
        reveal_with_fuel(all_same, 3);
        assert forall|s: Stmt<N>, h: Spelling| #[trigger] stmt_spelled_at(t, pos as int, s, h) implies res is Ok
            && res->Ok_0.1 == pos + stmt_text(s, h).len() && stmt_same(res->Ok_0.0, s) by {
            lemma_for_form(t, pos as int, s, h);
                    if h->For_0 is Some {
                        assert(stmt_spelled_at(t, a, s->Block_0@[0], *h->For_0->Some_0));
                    }
                    if h->For_1 {
                        assert(spelled_at(t, c0, 0, for_cond(s)));
                    }
                    if h->For_2 {
                        assert(spelled_at(t, i0, 0, for_inner(s)[1]->Expression_0));
                    }
                    assert(stmt_spelled_at(t, b0, for_inner(s)[0], *h->For_3));
            let sin = for_inner(s);
            assert(stmt_same(body_g, sin[0]));
            if h->For_2 {
                assert(inner_g[1] == Stmt::Expression(incr_g->Some_0, line));
                assert(stmt_same(inner_g[1], sin[1]));
            }
            assert(all_same(inner_g, sin, inner_g.len() as int));
            assert(inner_block_g->Block_0@ == inner_g);
            assert(stmt_same(inner_block_g, *s->Block_0@.last()->While_1));
            assert(same_shape(cond_g, for_cond(s)));
            assert(stmt_same(looped_g, s->Block_0@.last()));
            if h->For_0 is Some {
                assert(stmt_same(outer_g[0], s->Block_0@[0]));
            }
            assert(all_same(outer_g, s->Block_0@, outer_g.len() as int));
        }
    }
    res
}

/// while := 'while' '(' expression ')' statement
fn while_statement<N: Number>(tokens: &Vec<Token>, lines: &Vec<u64>, pos: usize) -> (r: Result<
    (Stmt<N>, usize),
    SyntaxError,
>)
    ensures
        parsed_stmt(tokens@, lines@, pos as int, r),
        r is Ok ==> r->Ok_0.0 is While,
        kind_at(tokens@, pos as int) == TokenKind::While ==> stmt_complete(tokens@, pos as int, r),
    decreases tokens@.len() - pos, 1int,
{
    let ghost t = tokens@;
    let line = line_at(lines, pos);
    let p = match expect(tokens, lines, pos, TokenKind::While) {
        Ok(n) => n,
        Err(e) => return Err(e),
    };
    let p = match expect(tokens, lines, p, TokenKind::LeftParen) {
        Ok(n) => n,
        Err(e) => {
            proof {
                assert forall|s: Stmt<N>, h: Spelling| #[trigger] stmt_spelled_at(t, pos as int, s, h) implies false by {
                    lemma_while_form(t, pos as int, s, h);
                }
            }
            return Err(e);
        },
    };
    let (condition, p) = match parse_expression(tokens, lines, p) {
        Ok(x) => x,
        Err(e) => {
            proof {
                assert forall|s: Stmt<N>, h: Spelling| #[trigger] stmt_spelled_at(t, pos as int, s, h) implies false by {
                    lemma_while_form(t, pos as int, s, h);
                    assert(spelled_at(t, pos + 2, 0, s->While_0));
                }
            }
            return Err(e);
        },
    };
    let p = match expect(tokens, lines, p, TokenKind::RightParen) {
        Ok(n) => n,
        Err(e) => {
            proof {
                assert forall|s: Stmt<N>, h: Spelling| #[trigger] stmt_spelled_at(t, pos as int, s, h) implies false by {
                    lemma_while_form(t, pos as int, s, h);
                    assert(spelled_at(t, pos + 2, 0, s->While_0));
                }
            }
            return Err(e);
        },
    };
    let ghost bpos = p as int;
    let (body, p) = match statement(tokens, lines, p) {
        Ok(x) => x,
        Err(e) => {
            proof {
                assert forall|s: Stmt<N>, h: Spelling| #[trigger] stmt_spelled_at(t, pos as int, s, h) implies false by {
                    lemma_while_form(t, pos as int, s, h);
                    assert(spelled_at(t, pos + 2, 0, s->While_0));
                    assert(stmt_spelled_at(t, bpos, *s->While_1, *h->Body_0));
                }
            }
            return Err(e);
        },
    };
    let res = Ok((Stmt::While(condition, Box::new(body), line), p));
    proof {
        assert forall|s: Stmt<N>, h: Spelling| #[trigger] stmt_spelled_at(t, pos as int, s, h) implies res is Ok
            && res->Ok_0.1 == pos + stmt_text(s, h).len() && stmt_same(res->Ok_0.0, s) by {
            lemma_while_form(t, pos as int, s, h);
            assert(spelled_at(t, pos + 2, 0, s->While_0));
            assert(stmt_spelled_at(t, bpos, *s->While_1, *h->Body_0));
        }
    }
    res
}

/// if := 'if' '(' expression ')' statement ('else' statement)?; an `else`
/// belongs to the nearest `if`.
#[verifier::rlimit(100)]
fn if_statement<N: Number>(tokens: &Vec<Token>, lines: &Vec<u64>, pos: usize) -> (r: Result<
    (Stmt<N>, usize),
    SyntaxError,
>)
    ensures
        parsed_stmt(tokens@, lines@, pos as int, r),
        r is Ok ==> r->Ok_0.0 is If,
        kind_at(tokens@, pos as int) == TokenKind::If ==> stmt_complete(tokens@, pos as int, r),
    decreases tokens@.len() - pos, 1int,
{
    let ghost t = tokens@;
    let line = line_at(lines, pos);
    let p = match expect(tokens, lines, pos, TokenKind::If) {
        Ok(n) => n,
        Err(e) => return Err(e),
    };
    let p = match expect(tokens, lines, p, TokenKind::LeftParen) {
        Ok(n) => n,
        Err(e) => {
            proof {
                assert forall|s: Stmt<N>, h: Spelling| #[trigger] stmt_spelled_at(t, pos as int, s, h) implies false by {
                    lemma_if_form(t, pos as int, s, h);
                }
            }
            return Err(e);
        },
    };
    let (condition, p) = match parse_expression(tokens, lines, p) {
        Ok(x) => x,
        Err(e) => {
            proof {
                assert forall|s: Stmt<N>, h: Spelling| #[trigger] stmt_spelled_at(t, pos as int, s, h) implies false by {
                    lemma_if_form(t, pos as int, s, h);
                    assert(spelled_at(t, pos + 2, 0, s->If_condition));
                }
            }
            return Err(e);
        },
    };
    let p = match expect(tokens, lines, p, TokenKind::RightParen) {
        Ok(n) => n,
        Err(e) => {
            proof {
                assert forall|s: Stmt<N>, h: Spelling| #[trigger] stmt_spelled_at(t, pos as int, s, h) implies false by {
                    lemma_if_form(t, pos as int, s, h);
                    assert(spelled_at(t, pos + 2, 0, s->If_condition));
                }
            }
            return Err(e);
        },
    };
    let ghost q = p as int;
    let (then_stmt, p) = match statement(tokens, lines, p) {
        Ok(x) => x,
        Err(e) => {
            proof {
                assert forall|s: Stmt<N>, h: Spelling| #[trigger] stmt_spelled_at(t, pos as int, s, h) implies false by {
                    lemma_if_form(t, pos as int, s, h);
                    assert(spelled_at(t, pos + 2, 0, s->If_condition));
                    let h1 = if h is Body { *h->Body_0 } else { *h->Branches_0 };
                    assert(stmt_spelled_at(t, q, *s->If_then_stmt, h1));
                }
            }
            return Err(e);
        },
    };
    let ghost q2 = p as int;
    if kind_at_exec(tokens, p) == TokenKind::Else {
        let (else_stmt, after_else) = match statement(tokens, lines, p + 1) {
            Ok(x) => x,
            Err(e) => {
            proof {
                assert forall|s: Stmt<N>, h: Spelling| #[trigger] stmt_spelled_at(t, pos as int, s, h) implies false by {
                    lemma_if_form(t, pos as int, s, h);
                    assert(spelled_at(t, pos + 2, 0, s->If_condition));
                    let h1 = if h is Body { *h->Body_0 } else { *h->Branches_0 };
                    assert(stmt_spelled_at(t, q, *s->If_then_stmt, h1));
                    if h is Branches {
                        assert(stmt_spelled_at(t, q2 + 1, *s->If_else_stmt->Some_0, *h->Branches_1));
                    }
                }
            }
            return Err(e);
            },
        };
        let res = Ok((
            Stmt::If {
                condition,
                then_stmt: Box::new(then_stmt),
                else_stmt: Some(Box::new(else_stmt)),
                line,
            },
            after_else,
        ));
        proof {
            assert forall|s: Stmt<N>, h: Spelling| #[trigger] stmt_spelled_at(t, pos as int, s, h) implies res is Ok
                && res->Ok_0.1 == pos + stmt_text(s, h).len() && stmt_same(res->Ok_0.0, s) by {
                lemma_if_form(t, pos as int, s, h);
                assert(spelled_at(t, pos + 2, 0, s->If_condition));
                let h1 = if h is Body { *h->Body_0 } else { *h->Branches_0 };
                assert(stmt_spelled_at(t, q, *s->If_then_stmt, h1));
                if h is Branches {
                    assert(stmt_spelled_at(t, q2 + 1, *s->If_else_stmt->Some_0, *h->Branches_1));
                }
            }
        }
        res
    } else {
        let res = Ok((Stmt::If { condition, then_stmt: Box::new(then_stmt), else_stmt: None, line }, p));
        proof {
            assert forall|s: Stmt<N>, h: Spelling| #[trigger] stmt_spelled_at(t, pos as int, s, h) implies res is Ok
                && res->Ok_0.1 == pos + stmt_text(s, h).len() && stmt_same(res->Ok_0.0, s) by {
                lemma_if_form(t, pos as int, s, h);
                assert(spelled_at(t, pos + 2, 0, s->If_condition));
                let h1 = if h is Body { *h->Body_0 } else { *h->Branches_0 };
                assert(stmt_spelled_at(t, q, *s->If_then_stmt, h1));
            }
        }
        res
    }
}

/// block := '{' declaration* '}'
fn block<N: Number>(tokens: &Vec<Token>, lines: &Vec<u64>, pos: usize) -> (r: Result<
    (Stmt<N>, usize),
    SyntaxError,
>)
    ensures
        parsed_stmt(tokens@, lines@, pos as int, r),
        r is Ok ==> r->Ok_0.0 is Block,
        kind_at(tokens@, pos as int) == TokenKind::LeftBrace ==> stmt_complete(tokens@, pos as int, r),
    decreases tokens@.len() - pos, 1int,
{
    let ghost t = tokens@;
    let mut p = match expect(tokens, lines, pos, TokenKind::LeftBrace) {
        Ok(n) => n,
        Err(e) => return Err(e),
    };
    let mut statements: Vec<Stmt<N>> = Vec::new();
    loop
        invariant
            t == tokens@,
            pos < p <= tokens@.len(),
            kind_at(t, pos as int) == TokenKind::LeftBrace,
            forall|i: int| 0 <= i < statements@.len() ==> #[trigger] stmt_well_formed(
                statements@[i],
            ),
            forall|s: Stmt<N>, h: Spelling| #[trigger] stmt_spelled_at(t, pos as int, s, h) ==> ({
                let v = s->Block_0@;
                let hs = h->Braces_0;
                &&& statements@.len() <= v.len()
                &&& p == pos + 1 + stmts_text(v, hs, statements@.len() as int).len()
                &&& all_same(statements@, v, statements@.len() as int)
            }),
        ensures
            t == tokens@,
            pos < p <= tokens@.len(),
            kind_at(t, p as int) == TokenKind::RightBrace || kind_at(t, p as int) == TokenKind::EOF,
            forall|i: int| 0 <= i < statements@.len() ==> #[trigger] stmt_well_formed(
                statements@[i],
            ),
            forall|s: Stmt<N>, h: Spelling| #[trigger] stmt_spelled_at(t, pos as int, s, h) ==> ({
                let v = s->Block_0@;
                let hs = h->Braces_0;
                &&& statements@.len() <= v.len()
                &&& p == pos + 1 + stmts_text(v, hs, statements@.len() as int).len()
                &&& all_same(statements@, v, statements@.len() as int)
            }),
        decreases tokens@.len() - p,
    {
        let k = kind_at_exec(tokens, p);
        if k == TokenKind::RightBrace || k == TokenKind::EOF {
            break ;
        }
        let ghost i = statements@.len() as int;
        let ghost here = p as int;
        let (s1, n) = match statement(tokens, lines, p) {
            Ok(x) => x,
            Err(e) => {
                proof {
                    assert forall|s: Stmt<N>, h: Spelling| #[trigger] stmt_spelled_at(t, pos as int, s, h) implies false by {
                        lemma_block_form(t, pos as int, s, h, i);
                        if i == s->Block_0@.len() {
                        } else {
                            assert(stmt_spelled_at(t, here, s->Block_0@[i], h->Braces_0[i]));
                        }
                    }
                }
                return Err(e);
            },
        };
        let ghost before = statements@;
        let ghost x = s1;
        statements.push(s1);
        proof {
            assert forall|s: Stmt<N>, h: Spelling| #[trigger] stmt_spelled_at(t, pos as int, s, h) implies ({
                let v = s->Block_0@;
                let hs = h->Braces_0;
                &&& statements@.len() <= v.len()
                &&& n == pos + 1 + stmts_text(v, hs, statements@.len() as int).len()
                &&& all_same(statements@, v, statements@.len() as int)
            }) by {
                lemma_block_form(t, pos as int, s, h, i);
                let v = s->Block_0@;
                if i == v.len() {
                } else {
                    assert(stmt_spelled_at(t, here, v[i], h->Braces_0[i]));
                    assert(statements@ == before.push(x));
                    lemma_all_same_push(before, x, v, i);
                    assert(statements@[i] == x);
                }
            }
        }
        p = n;
    }
    let ghost i = statements@.len() as int;
    let p = match expect(tokens, lines, p, TokenKind::RightBrace) {
        Ok(n) => n,
        Err(e) => {
            proof {
                assert forall|s: Stmt<N>, h: Spelling| #[trigger] stmt_spelled_at(t, pos as int, s, h) implies false by {
                    lemma_block_form(t, pos as int, s, h, i);
                    if i < s->Block_0@.len() {
                        lemma_block_form(t, pos as int, s, h, i);
                    }
                }
            }
            return Err(e);
        },
    };
    proof {
        lemma_all_well_formed(statements@, statements@.len() as int);
    }
    let ghost sv = statements@;
    let r = Stmt::Block(statements);
    assert(stmt_well_formed(r));
    let res = Ok((r, p));
    proof {
        assert forall|s: Stmt<N>, h: Spelling| #[trigger] stmt_spelled_at(t, pos as int, s, h) implies res is Ok
            && res->Ok_0.1 == pos + stmt_text(s, h).len() && stmt_same(res->Ok_0.0, s) by {
            lemma_block_form(t, pos as int, s, h, i);
        }
    }
    res
}

/// print := 'print' expression ';'
fn print_statement<N: Number>(tokens: &Vec<Token>, lines: &Vec<u64>, pos: usize) -> (r: Result<
    (Stmt<N>, usize),
    SyntaxError,
>)
    ensures
        parsed_stmt(tokens@, lines@, pos as int, r),
        r is Ok ==> r->Ok_0.0 is Print,
        kind_at(tokens@, pos as int) == TokenKind::Print ==> stmt_complete(tokens@, pos as int, r),
    decreases tokens@.len() - pos, 1int,
{
    let ghost t = tokens@;
    let line = line_at(lines, pos);
    let p = match expect(tokens, lines, pos, TokenKind::Print) {
        Ok(n) => n,
        Err(e) => return Err(e),
    };
    let ghost start = p;
    let (e, p) = match parse_expression(tokens, lines, p) {
        Ok(x) => x,
        Err(e) => {
            proof {
                assert forall|s: Stmt<N>, h: Spelling| #[trigger] stmt_spelled_at(t, pos as int, s, h) implies false by {
                    lemma_print_form(t, pos as int, s, h);
                    assert(spelled_at(t, start as int, 0, s->Print_0));
                }
            }
            return Err(e);
        },
    };
    let p = match expect(tokens, lines, p, TokenKind::SemiColon) {
        Ok(n) => n,
        Err(e) => {
            proof {
                assert forall|s: Stmt<N>, h: Spelling| #[trigger] stmt_spelled_at(t, pos as int, s, h) implies false by {
                    lemma_print_form(t, pos as int, s, h);
                    assert(spelled_at(t, start as int, 0, s->Print_0));
                }
            }
            return Err(e);
        },
    };
    let res = Ok((Stmt::Print(e, line), p));
    proof {
        assert forall|s: Stmt<N>, h: Spelling| #[trigger] stmt_spelled_at(t, pos as int, s, h) implies res is Ok
            && res->Ok_0.1 == pos + stmt_text(s, h).len() && stmt_same(res->Ok_0.0, s) by {
            lemma_print_form(t, pos as int, s, h);
            assert(spelled_at(t, start as int, 0, s->Print_0));
        }
    }
    res
}

/// expression-statement := expression ';'
fn expression_statement<N: Number>(tokens: &Vec<Token>, lines: &Vec<u64>, pos: usize) -> (r: Result<
    (Stmt<N>, usize),
    SyntaxError,
>)
    ensures
        parsed_stmt(tokens@, lines@, pos as int, r),
        r is Ok ==> r->Ok_0.0 is Expression,
        !opens_statement(kind_at(tokens@, pos as int)) ==> stmt_complete(tokens@, pos as int, r),
    decreases tokens@.len() - pos, 1int,
{
    let ghost t = tokens@;
    let line = line_at(lines, pos);
    let (e, p) = match parse_expression(tokens, lines, pos) {
        Ok(x) => x,
        Err(e) => {
            proof {
                if !opens_statement(kind_at(t, pos as int)) {
                assert forall|s: Stmt<N>, h: Spelling| #[trigger] stmt_spelled_at(t, pos as int, s, h) implies false by {
                    lemma_expression_form(t, pos as int, s, h);
                }
                }
            }
            return Err(e);
        },
    };
    let p = match expect(tokens, lines, p, TokenKind::SemiColon) {
        Ok(n) => n,
        Err(e) => {
            proof {
                if !opens_statement(kind_at(t, pos as int)) {
                assert forall|s: Stmt<N>, h: Spelling| #[trigger] stmt_spelled_at(t, pos as int, s, h) implies false by {
                    lemma_expression_form(t, pos as int, s, h);
                }
                }
            }
            return Err(e);
        },
    };
    let res = Ok((Stmt::Expression(e, line), p));
    proof {
        if !opens_statement(kind_at(t, pos as int)) {
        assert forall|s: Stmt<N>, h: Spelling| #[trigger] stmt_spelled_at(t, pos as int, s, h) implies res is Ok
            && res->Ok_0.1 == pos + stmt_text(s, h).len() && stmt_same(res->Ok_0.0, s) by {
            lemma_expression_form(t, pos as int, s, h);
        }
        }
    }
    res
}

/// A recursive-descent parser over a token sequence, with the source line of
/// each token for its error messages and statements.
pub struct Parser {
    tokens: Vec<Token>,
    lines: Vec<u64>,
    pos: usize,
}

impl Parser {
    pub closed spec fn tokens(&self) -> Seq<Token> {
        self.tokens@
    }

    /// The index of the next token to read.
    pub closed spec fn position(&self) -> int {
        self.pos as int
    }

    /// The line of each token, as far as known.
    pub closed spec fn lines(&self) -> Seq<u64> {
        self.lines@
    }

    /// A parser whose tokens all count as on line 1.
    pub fn new(tokens: Vec<Token>) -> (r: Parser)
        ensures
            r.tokens() == tokens@,
            r.position() == 0,
    {
        Parser { tokens, lines: Vec::new(), pos: 0 }
    }

    /// A parser that knows the line of each token (`lines[i]` for `tokens[i]`).
    pub fn with_lines(tokens: Vec<Token>, lines: Vec<u64>) -> (r: Parser)
        ensures
            r.tokens() == tokens@,
            r.position() == 0,
    {
        Parser { tokens, lines, pos: 0 }
    }

    /// Parses statements up to the `EOF` token (or the end of the tokens).
    pub fn parse<N: Number>(&mut self) -> (r: Result<Vec<Stmt<N>>, SyntaxError>)
        ensures
            final(self).tokens() == old(self).tokens(),
            final(self).lines() == old(self).lines(),
            match r {
                Ok(v) => kind_at(final(self).tokens(), final(self).position()) == TokenKind::EOF
                    && forall|i: int| 0 <= i < v@.len() ==> #[trigger] stmt_well_formed(v@[i]),
                Err(e) => error_line_from(old(self).lines(), old(self).position(), e.line),
            },
            forall|v: Seq<Stmt<N>>, hs: Seq<Spelling>| #[trigger]
                program_spelled_at(old(self).tokens(), old(self).position(), v, hs) ==> r is Ok
                    && r->Ok_0@.len() == v.len() && all_same(r->Ok_0@, v, v.len() as int),
    {
        let ghost t = self.tokens@;
        let ghost pos = self.pos as int;
        let mut statements: Vec<Stmt<N>> = Vec::new();
        while kind_at_exec(&self.tokens, self.pos) != TokenKind::EOF
            invariant
                self.tokens() == old(self).tokens(),
                self.lines() == old(self).lines(),
                t == self.tokens@,
                pos == old(self).position(),
                pos <= self.pos,
                forall|i: int| 0 <= i < statements@.len() ==> #[trigger] stmt_well_formed(
                    statements@[i],
                ),
                forall|v: Seq<Stmt<N>>, hs: Seq<Spelling>| #[trigger] program_spelled_at(t, pos, v, hs) ==> ({
                    &&& statements@.len() <= v.len()
                    &&& self.pos == pos + stmts_text(v, hs, statements@.len() as int).len()
                    &&& all_same(statements@, v, statements@.len() as int)
                }),
            decreases self.tokens@.len() - self.pos,
        {
            let ghost i = statements@.len() as int;
            let ghost here = self.pos as int;
            let s = match self.statement() {
                Ok(s) => s,
                Err(e) => {
                    proof {
                        assert forall|v: Seq<Stmt<N>>, hs: Seq<Spelling>| #[trigger] program_spelled_at(t, pos, v, hs) implies false by {
                            lemma_program_form(t, pos, v, hs, i);
                            if i < v.len() {
                                assert(stmt_spelled_at(t, here, v[i], hs[i]));
                            }
                        }
                    }
                    return Err(e);
                },
            };
            let ghost before = statements@;
            let ghost x = s;
            statements.push(s);
            proof {
                assert forall|v: Seq<Stmt<N>>, hs: Seq<Spelling>| #[trigger] program_spelled_at(t, pos, v, hs) implies ({
                    &&& statements@.len() <= v.len()
                    &&& self.pos == pos + stmts_text(v, hs, statements@.len() as int).len()
                    &&& all_same(statements@, v, statements@.len() as int)
                }) by {
                    lemma_program_form(t, pos, v, hs, i);
                    if i < v.len() {
                        assert(stmt_spelled_at(t, here, v[i], hs[i]));
                        assert(statements@ == before.push(x));
                        lemma_all_same_push(before, x, v, i);
                    }
                }
            }
        }
        proof {
            let i = statements@.len() as int;
            assert forall|v: Seq<Stmt<N>>, hs: Seq<Spelling>| #[trigger] program_spelled_at(t, pos, v, hs) implies i
                == v.len() by {
                lemma_program_form(t, pos, v, hs, i);
            }
        }
        Ok(statements)
    }

    /// Parses one statement: it succeeds on every token sequence that writes
    /// out a statement, and gives that statement.
    pub fn statement<N: Number>(&mut self) -> (r: Result<Stmt<N>, SyntaxError>)
        ensures
            final(self).tokens() == old(self).tokens(),
            final(self).lines() == old(self).lines(),
            match r {
                Ok(s) => stmt_well_formed(s) && old(self).position() < final(self).position()
                    <= old(self).tokens().len(),
                Err(e) => final(self).position() == old(self).position() && error_line_from(
                    old(self).lines(),
                    old(self).position(),
                    e.line,
                ),
            },
            forall|s: Stmt<N>, h: Spelling| #[trigger]
                stmt_spelled_at(old(self).tokens(), old(self).position(), s, h) ==> r is Ok
                    && final(self).position() == old(self).position() + stmt_text(s, h).len()
                    && stmt_same(r->Ok_0, s),
    {
        match statement(&self.tokens, &self.lines, self.pos) {
            Ok((s, next)) => {
                self.pos = next;
                Ok(s)
            },
            Err(e) => Err(e),
        }
    }

    /// Parses one expression; the tokens it consumed spell the tree, and it
    /// succeeds on every token sequence that spells a tree of the grammar
    /// followed by a token that cannot continue it.
    pub fn expression<N: Number>(&mut self) -> (r: Result<Expr<N>, SyntaxError>)
        ensures
            final(self).tokens() == old(self).tokens(),
            match r {
                Ok(e) => well_formed(e) && old(self).position() < final(self).position()
                    && flatten(e) == erased(
                    old(self).tokens(),
                    old(self).position(),
                    final(self).position(),
                ),
                Err(err) => final(self).position() == old(self).position() && error_line_from(
                    old(self).lines(),
                    old(self).position(),
                    err.line,
                ),
            },
            forall|e: Expr<N>| #[trigger]
                spelled_at(old(self).tokens(), old(self).position(), 0, e) ==> r is Ok
                    && final(self).position() == old(self).position() + flatten(e).len()
                    && same_shape(r->Ok_0, e),
    {
        match parse_expression(&self.tokens, &self.lines, self.pos) {
            Ok((e, next)) => {
                self.pos = next;
                Ok(e)
            },
            Err(e) => Err(e),
        }
    }
}

} // verus!
