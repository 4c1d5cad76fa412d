use vstd::prelude::*;

use crate::expression::{
    binary_level, fixed_view, flatten, infix, literal_token, well_formed, Expr, Rendering,
};
use crate::literal::Literal;
use crate::parser::{erased, kind_at, spelled_at};
use crate::scanner::{
    continues_identifier, emit, find_from, fixed_lexeme, identifier_end, keyword, lemma_find,
    lemma_fixed_spelling, newlines,
    lemma_keyword_lexemes, lex, lex_from, lexeme_of, relexable, skip, starts_identifier, step_at,
    token_views, Token, TokenKind, TokenView,
};

verus! {

/// String contents that print and lex back unchanged on one line.
pub open spec fn plain_text(text: Seq<char>) -> bool {
    forall|j: int| 0 <= j < text.len() ==> text[j] != '"' && text[j] != '\n'
}

/// A tree without number literals, whose strings are plain text and whose
/// names lex as identifiers: its infix print is made of lexemes only.
pub open spec fn plain<N>(e: Expr<N>) -> bool
    decreases e,
{
    match e {
        Expr::Literal(l) => match l {
            Literal::String(text) => plain_text(text@),
            Literal::Number(_) => false,
            _ => true,
        },
        Expr::Variable(name) => relexable((TokenKind::Identifier, name@)),
        Expr::Grouping(x) => plain(*x),
        Expr::Unary { expr, .. } => plain(*expr),
        Expr::Binary { left, right, .. } => plain(*left) && plain(*right),
        Expr::Logical { left, right, .. } => plain(*left) && plain(*right),
        Expr::Assign { name, value } => relexable((TokenKind::Identifier, name@)) && plain(*value),
    }
}

/// A token that ends at `j` is not extended by what follows.
pub open spec fn ends_token(s: Seq<char>, j: int) -> bool {
    j == s.len() || s[j] == ' ' || s[j] == ')'
}

proof fn lemma_lex_one(s: Seq<char>, i: int, line: int, t: TokenView, n: int)
    requires
        0 <= i < s.len(),
        n >= 1,
        i + n <= s.len(),
        step_at(s, i, line) == emit(t.0, t.1, i + n, line),
    ensures
        lex_from(s, i, line) == (seq![t] + lex_from(s, i + n, line).0, lex_from(s, i + n, line).1),
{
    let r = lex_from(s, i + n, line);
    assert(Seq::<(Seq<char>, int)>::empty() + r.1 =~= r.1);
}

proof fn lemma_lex_space(s: Seq<char>, i: int, line: int)
    requires
        0 <= i < s.len(),
        s[i] == ' ',
    ensures
        lex_from(s, i, line) == lex_from(s, i + 1, line),
{
    assert(step_at(s, i, line) == skip(i + 1, line));
    let r = lex_from(s, i + 1, line);
    assert(Seq::<TokenView>::empty() + r.0 =~= r.0);
    assert(Seq::<(Seq<char>, int)>::empty() + r.1 =~= r.1);
}

proof fn lemma_sub_text(s: Seq<char>, i: int, txt: Seq<char>, a: int, b: int)
    requires
        0 <= i,
        i + txt.len() <= s.len(),
        s.subrange(i, i + txt.len()) == txt,
        0 <= a <= b <= txt.len(),
    ensures
        s.subrange(i + a, i + b) == txt.subrange(a, b),
        forall|m: int| a <= m < b ==> #[trigger] s[i + m] == txt[m],
{
    assert forall|m: int| a <= m < b implies #[trigger] s[i + m] == txt[m] by {
        assert(s[i + m] == s.subrange(i, i + txt.len())[m]);
    }
    assert(s.subrange(i + a, i + b) =~= txt.subrange(a, b));
}

/// A word made of identifier characters, not extended by what follows, scans
/// as one identifier or keyword.
proof fn lemma_word_step(s: Seq<char>, i: int, w: Seq<char>, line: int)
    requires
        0 <= i,
        w.len() >= 1,
        i + w.len() <= s.len(),
        s.subrange(i, i + w.len()) == w,
        starts_identifier(w[0]),
        forall|m: int| 0 <= m < w.len() ==> continues_identifier(#[trigger] w[m]),
        ends_token(s, i + w.len()),
    ensures
        step_at(s, i, line) == (match keyword(w) {
            Some(k) => emit(k, Seq::empty(), i + w.len(), line),
            None => emit(TokenKind::Identifier, w, i + w.len(), line),
        }),
{
    lemma_sub_text(s, i, w, 0, w.len() as int);
    assert(s[i] == w[0]);
    assert forall|j: int| i + 1 <= j < i + w.len() implies continues_identifier(#[trigger] s[j]) by {
        assert(s[i + (j - i)] == w[j - i]);
    }
    lemma_identifier_run(s, i + 1, i + w.len());
}

proof fn lemma_identifier_run(s: Seq<char>, a: int, b: int)
    requires
        0 <= a <= b <= s.len(),
        forall|j: int| a <= j < b ==> continues_identifier(#[trigger] s[j]),
        b == s.len() || !continues_identifier(s[b]),
    ensures
        identifier_end(s, a) == b,
    decreases b - a,
{
    if a < b {
        lemma_identifier_run(s, a + 1, b);
    }
}

/// The keywords that a plain tree prints: literal values and `and` / `or`.
proof fn lemma_keyword_word(k: TokenKind)
    requires
        k == TokenKind::True || k == TokenKind::False || k == TokenKind::Nil || k == TokenKind::And
            || k == TokenKind::Or,
    ensures
        keyword(fixed_lexeme(k)) == Some(k),
        fixed_lexeme(k).len() >= 1,
        starts_identifier(fixed_lexeme(k)[0]),
        forall|m: int| 0 <= m < fixed_lexeme(k).len() ==> continues_identifier(#[trigger] fixed_lexeme(k)[m]),
{
    reveal_strlit("true");
    reveal_strlit("false");
    reveal_strlit("nil");
    reveal_strlit("and");
    reveal_strlit("or");
    lemma_keyword_lexemes(k);
    if k == TokenKind::True {
        assert(fixed_lexeme(k) =~= seq!['t', 'r', 'u', 'e']);
    } else if k == TokenKind::False {
        assert(fixed_lexeme(k) =~= seq!['f', 'a', 'l', 's', 'e']);
    } else if k == TokenKind::Nil {
        assert(fixed_lexeme(k) =~= seq!['n', 'i', 'l']);
    } else if k == TokenKind::And {
        assert(fixed_lexeme(k) =~= seq!['a', 'n', 'd']);
    } else {
        assert(fixed_lexeme(k) =~= seq!['o', 'r']);
    }
}

proof fn lemma_no_newlines(s: Seq<char>, a: int, b: int)
    requires
        0 <= a <= b <= s.len(),
        forall|j: int| a <= j < b ==> #[trigger] s[j] != '\n',
    ensures
        newlines(s, a, b) == 0,
    decreases b - a,
{
    if a < b {
        lemma_no_newlines(s, a, b - 1);
    }
}

/// A quoted plain string scans as one string token.
proof fn lemma_string_step(s: Seq<char>, i: int, text: Seq<char>, line: int)
    requires
        plain_text(text),
        0 <= i,
        i + text.len() + 2 <= s.len(),
        s.subrange(i, i + text.len() + 2) == seq!['"'] + text + seq!['"'],
    ensures
        step_at(s, i, line) == emit(TokenKind::String, text, i + text.len() + 2, line),
{
    let w = seq!['"'] + text + seq!['"'];
    let m = text.len() as int;
    lemma_sub_text(s, i, w, 0, m + 2);
    assert(s[i] == w[0]);
    assert forall|j: int| i + 1 <= j < i + 1 + m implies #[trigger] s[j] != '"' && s[j] != '\n' by {
        assert(s[i + (j - i)] == w[j - i]);
        assert(w[j - i] == text[j - i - 1]);
    }
    assert(s[i + (m + 1)] == w[m + 1]);
    lemma_find(s, i + 1, i + 1 + m, '"');
    lemma_no_newlines(s, i + 1, i + 1 + m);
    lemma_sub_text(s, i, w, 1, m + 1);
    assert(w.subrange(1, m + 1) =~= text);
}

proof fn lemma_operator_lexeme(k: TokenKind)
    requires
        binary_level(k) >= 1,
    ensures
        fixed_lexeme(k).len() >= 1,
{
    reveal_strlit("or");
    reveal_strlit("and");
    reveal_strlit("==");
    reveal_strlit("!=");
    reveal_strlit("<");
    reveal_strlit("<=");
    reveal_strlit(">");
    reveal_strlit(">=");
    reveal_strlit("-");
    reveal_strlit("+");
    reveal_strlit("/");
    reveal_strlit("*");
}

/// The infix print of a plain tree starts with `(`, `!`, `-` or a letter.
proof fn lemma_first_char<N>(d: Rendering, e: Expr<N>, txt: Seq<char>)
    requires
        plain(e),
        well_formed(e),
        infix(d, e, txt),
    ensures
        txt.len() >= 1,
        txt[0] == '(' || txt[0] == '!' || txt[0] == '-' || txt[0] == '"' || starts_identifier(txt[0]),
    decreases e,
{
    reveal_strlit("(");
    reveal_strlit("!");
    reveal_strlit("-");
    match e {
        Expr::Literal(l) => {
            if !(l is String) {
                lemma_keyword_word(literal_token(l).0);
            }
        },
        Expr::Variable(_) => {},
        Expr::Grouping(x) => {},
        Expr::Unary { op, expr } => {},
        Expr::Binary { left, .. } => {
            let (da, ta) = (*d->Node_0, d->Node_1);
            lemma_first_char(da, *left, ta);
            assert(txt[0] == ta[0]);
        },
        Expr::Logical { left, .. } => {
            let (da, ta) = (*d->Node_0, d->Node_1);
            lemma_first_char(da, *left, ta);
            assert(txt[0] == ta[0]);
        },
        Expr::Assign { .. } => {},
    }
}

/// Lexing from `i`, where `s` holds the infix print of a plain tree followed
/// by an end, a space or `)`, gives the tokens that spell the tree and then
/// whatever follows.
#[verifier::rlimit(100)]
proof fn lemma_lex_infix<N>(d: Rendering, e: Expr<N>, txt: Seq<char>, s: Seq<char>, i: int, line: int)
    requires
        plain(e),
        well_formed(e),
        infix(d, e, txt),
        0 <= i,
        i + txt.len() <= s.len(),
        s.subrange(i, i + txt.len()) == txt,
        ends_token(s, i + txt.len()),
    ensures
        lex_from(s, i, line) == (
            flatten(e) + lex_from(s, i + txt.len(), line).0,
            lex_from(s, i + txt.len(), line).1,
        ),
    decreases e,
{
    reveal_strlit("(");
    reveal_strlit(")");
    reveal_strlit("!");
    reveal_strlit("-");
    reveal_strlit(" ");
    reveal_strlit(" = ");
    reveal_strlit("=");
    let n = txt.len() as int;
    let rest = lex_from(s, i + n, line);
    lemma_first_char(d, e, txt);
    lemma_sub_text(s, i, txt, 0, n);
    match e {
        Expr::Literal(l) => {
            if l is String {
                let text = l->String_0@;
                lemma_string_step(s, i, text, line);
                lemma_lex_one(s, i, line, (TokenKind::String, text), n);
                assert(flatten(e) =~= seq![(TokenKind::String, text)]);
            } else {
                let k = literal_token(l).0;
                lemma_keyword_word(k);
                lemma_word_step(s, i, txt, line);
                lemma_lex_one(s, i, line, (k, Seq::<char>::empty()), n);
                assert(flatten(e) =~= seq![(k, Seq::<char>::empty())]);
            }
        },
        Expr::Variable(name) => {
            assert forall|m: int| 0 <= m < txt.len() implies continues_identifier(#[trigger] txt[m]) by {
            }
            lemma_word_step(s, i, txt, line);
            lemma_lex_one(s, i, line, (TokenKind::Identifier, txt), n);
        },
        Expr::Grouping(x) => {
            let (da, ta) = (*d->Node_0, d->Node_1);
            let m = ta.len() as int;
            assert(txt[0] == '(');
            lemma_lex_one(s, i, line, fixed_view(TokenKind::LeftParen), 1);
            lemma_sub_text(s, i, txt, 1, 1 + m);
            assert(txt.subrange(1, 1 + m) =~= ta);
            assert(txt[1 + m] == ')');
            lemma_lex_infix(da, *x, ta, s, i + 1, line);
            lemma_lex_one(s, i + 1 + m, line, fixed_view(TokenKind::RightParen), 1);
            assert(flatten(e).push((TokenKind::EOF, Seq::<char>::empty())).len() > 0);
            assert(seq![fixed_view(TokenKind::LeftParen)] + (flatten(*x) + (seq![
                fixed_view(TokenKind::RightParen),
            ] + rest.0)) =~= flatten(e) + rest.0);
        },
        Expr::Unary { op, expr } => {
            let (da, ta) = (*d->Node_0, d->Node_1);
            let m = ta.len() as int;
            lemma_first_char(da, *expr, ta);
            assert(txt.subrange(1, 1 + m) =~= ta);
            lemma_sub_text(s, i, txt, 1, 1 + m);
            assert(s[i + 1] == ta[0]);
            lemma_lex_one(s, i, line, op@, 1);
            lemma_lex_infix(da, *expr, ta, s, i + 1, line);
            assert(seq![op@] + (flatten(*expr) + rest.0) =~= flatten(e) + rest.0);
        },
        Expr::Binary { left, op, right } => {
            lemma_lex_binary(d, e, txt, s, i, line);
        },
        Expr::Logical { left, op, right } => {
            lemma_lex_binary(d, e, txt, s, i, line);
        },
        Expr::Assign { name, value } => {
            let (da, ta) = (*d->Node_0, d->Node_1);
            let w = name@;
            let a = w.len() as int;
            let m = ta.len() as int;
            assert(txt =~= w + seq![' ', '=', ' '] + ta);
            lemma_sub_text(s, i, txt, 0, a);
            assert(txt.subrange(0, a) =~= w);
            assert forall|q: int| 0 <= q < w.len() implies continues_identifier(#[trigger] w[q]) by {
            }
            lemma_word_step(s, i, w, line);
            lemma_lex_one(s, i, line, (TokenKind::Identifier, w), a);
            lemma_lex_space(s, i + a, line);
            lemma_sub_text(s, i, txt, a + 1, a + 2);
            assert(txt.subrange(a + 1, a + 2) =~= fixed_lexeme(TokenKind::Equal));
            assert(s[i + a + 2] == ' ');
            lemma_fixed_spelling(s, i + a + 1, TokenKind::Equal, fixed_lexeme(TokenKind::Equal));
            lemma_lex_one(s, i + a + 1, line, fixed_view(TokenKind::Equal), 1);
            lemma_lex_space(s, i + a + 2, line);
            lemma_sub_text(s, i, txt, a + 3, a + 3 + m);
            assert(txt.subrange(a + 3, a + 3 + m) =~= ta);
            lemma_lex_infix(da, *value, ta, s, i + a + 3, line);
            assert(seq![(TokenKind::Identifier, w)] + (seq![fixed_view(TokenKind::Equal)] + (flatten(
                *value,
            ) + rest.0)) =~= flatten(e) + rest.0);
        },
    }
}

#[verifier::rlimit(100)]
proof fn lemma_lex_binary<N>(d: Rendering, e: Expr<N>, txt: Seq<char>, s: Seq<char>, i: int, line: int)
    requires
        e is Binary || e is Logical,
        plain(e),
        well_formed(e),
        infix(d, e, txt),
        0 <= i,
        i + txt.len() <= s.len(),
        s.subrange(i, i + txt.len()) == txt,
        ends_token(s, i + txt.len()),
    ensures
        lex_from(s, i, line) == (
            flatten(e) + lex_from(s, i + txt.len(), line).0,
            lex_from(s, i + txt.len(), line).1,
        ),
    decreases e, 0int,
{
    reveal_strlit(" ");
    let (da, ta, db, tb) = (*d->Node_0, d->Node_1, *d->Node_2, d->Node_3);
    let (left, op, right) = match e {
        Expr::Binary { left, op, right } => (*left, op, *right),
        Expr::Logical { left, op, right } => (*left, op, *right),
        _ => (e, Token::EOF, e),
    };
    let k = op@.0;
    lemma_operator_lexeme(k);
    let lx = fixed_lexeme(k);
    assert(lexeme_of(op@) == lx);
    let a = ta.len() as int;
    let b = tb.len() as int;
    let o = lx.len() as int;
    let n = txt.len() as int;
    let rest = lex_from(s, i + n, line);
    assert(txt =~= ta + seq![' '] + lx + seq![' '] + tb);
    lemma_sub_text(s, i, txt, 0, n);
    lemma_sub_text(s, i, txt, 0, a);
    assert(txt.subrange(0, a) =~= ta);
    lemma_lex_infix(da, left, ta, s, i, line);
    lemma_lex_space(s, i + a, line);
    let j = i + a + 1;
    lemma_sub_text(s, i, txt, a + 1, a + 1 + o);
    assert(txt.subrange(a + 1, a + 1 + o) =~= lx);
    assert forall|q: int| 0 <= q < o implies #[trigger] s[j + q] == lx[q] by {
        assert(s[i + (a + 1 + q)] == txt[a + 1 + q]);
    }
    assert(s[j + o] == txt[a + 1 + o]);
    lemma_fixed_spelling(s, j, k, lx);
    lemma_lex_one(s, j, line, fixed_view(k), o);
    lemma_lex_space(s, j + o, line);
    lemma_sub_text(s, i, txt, a + 2 + o, n);
    assert(txt.subrange(a + 2 + o, n) =~= tb);
    lemma_lex_infix(db, right, tb, s, j + o + 1, line);
    assert(op@ == fixed_view(k));
    assert(flatten(left) + (seq![fixed_view(k)] + (flatten(right) + rest.0)) =~= flatten(e) + rest.0);
}

proof fn lemma_plain_no_numbers<N>(e: Expr<N>)
    requires
        plain(e),
        well_formed(e),
    ensures
        forall|m: int| 0 <= m < flatten(e).len() ==> (#[trigger] flatten(e)[m]).0 != TokenKind::Number,
    decreases e,
{
    match e {
        Expr::Grouping(x) => {
            lemma_plain_no_numbers(*x);
            let f = flatten(*x);
            assert forall|m: int| 0 <= m < flatten(e).len() implies (#[trigger] flatten(e)[m]).0
                != TokenKind::Number by {
                if 1 <= m < 1 + f.len() {
                    assert(flatten(e)[m] == f[m - 1]);
                }
            }
        },
        Expr::Unary { op, expr } => {
            lemma_plain_no_numbers(*expr);
            let f = flatten(*expr);
            assert forall|m: int| 0 <= m < flatten(e).len() implies (#[trigger] flatten(e)[m]).0
                != TokenKind::Number by {
                if m >= 1 {
                    assert(flatten(e)[m] == f[m - 1]);
                }
            }
        },
        Expr::Binary { left, op, right } => {
            lemma_plain_no_numbers(*left);
            lemma_plain_no_numbers(*right);
            let (fl, fr) = (flatten(*left), flatten(*right));
            assert forall|m: int| 0 <= m < flatten(e).len() implies (#[trigger] flatten(e)[m]).0
                != TokenKind::Number by {
                if m < fl.len() {
                    assert(flatten(e)[m] == fl[m]);
                } else if m > fl.len() {
                    assert(flatten(e)[m] == fr[m - fl.len() - 1]);
                }
            }
        },
        Expr::Logical { left, op, right } => {
            lemma_plain_no_numbers(*left);
            lemma_plain_no_numbers(*right);
            let (fl, fr) = (flatten(*left), flatten(*right));
            assert forall|m: int| 0 <= m < flatten(e).len() implies (#[trigger] flatten(e)[m]).0
                != TokenKind::Number by {
                if m < fl.len() {
                    assert(flatten(e)[m] == fl[m]);
                } else if m > fl.len() {
                    assert(flatten(e)[m] == fr[m - fl.len() - 1]);
                }
            }
        },
        Expr::Assign { name, value } => {
            lemma_plain_no_numbers(*value);
            let f = flatten(*value);
            assert forall|m: int| 0 <= m < flatten(e).len() implies (#[trigger] flatten(e)[m]).0
                != TokenKind::Number by {
                if m >= 2 {
                    assert(flatten(e)[m] == f[m - 2]);
                }
            }
        },
        _ => {},
    }
}

/// The infix print of a plain tree lexes to exactly the tokens that spell
/// the tree, then `EOF`, with no error.
pub proof fn law_infix_lexes_back<N>(d: Rendering, e: Expr<N>, txt: Seq<char>)
    requires
        plain(e),
        well_formed(e),
        infix(d, e, txt),
    ensures
        lex(txt) == (
            flatten(e).push((TokenKind::EOF, Seq::<char>::empty())),
            Seq::<(Seq<char>, int)>::empty(),
        ),
{
    assert(txt.subrange(0, txt.len() as int) =~= txt);
    lemma_lex_infix(d, e, txt, txt, 0, 1);
    assert(flatten(e) + seq![(TokenKind::EOF, Seq::<char>::empty())] =~= flatten(e).push(
        (TokenKind::EOF, Seq::<char>::empty()),
    ));
    assert(Seq::<(Seq<char>, int)>::empty() =~= lex_from(txt, txt.len() as int, 1).1);
}

/// Print/parse fidelity: the tokens of the infix print of a plain tree spell
/// the tree and then stop, which is exactly where the expression parser owes
/// success with the same tree (numbers aside, and a plain tree has none).
pub proof fn law_print_parse<N>(d: Rendering, e: Expr<N>, txt: Seq<char>, t: Seq<Token>)
    requires
        plain(e),
        well_formed(e),
        infix(d, e, txt),
        token_views(t) == lex(txt).0,
    ensures
        spelled_at(t, 0, 0, e),
{
    law_infix_lexes_back(d, e, txt);
    lemma_plain_no_numbers(e);
    let f = flatten(e);
    let n = f.len() as int;
    assert(token_views(t).len() == t.len());
    assert(lex(txt).0.len() == n + 1);
    assert forall|m: int| 0 <= m < n implies #[trigger] erased(t, 0, n)[m] == f[m] by {
        assert(token_views(t)[m] == t[m]@);
        assert(t[m]@ == f[m]);
    }
    assert(erased(t, 0, n) =~= f);
    assert(token_views(t)[n] == t[n]@);
    assert(kind_at(t, n) == TokenKind::EOF);
}

} // verus!
