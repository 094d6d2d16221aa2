//! The round-trip law: rendering a well-formed expression tree back to text,
//! fully parenthesized, and parsing that text reproduces the same tree. The
//! renderer here is a specification; any printer that emits this text gets
//! the guarantee.

use vstd::prelude::*;

use crate::lexer::{
    dot_count, is_digit, is_ident_char, is_ident_start, lex_spec, next_token_spec, scan_ident,
    scan_number, single_token, Token, TokenVariant,
};
use crate::parser::{
    digits_val, spec_add_sub, spec_add_sub_more, spec_eat, spec_equality, spec_expr,
    spec_mul_div, spec_mul_div_more, spec_operand, spec_parse, spec_unary, BinaryVariant,
    SpecExpr,
};

verus! {

/// The character of one decimal digit.
pub open spec fn digit_char(d: int) -> char {
    if d == 0 {
        '0'
    } else if d == 1 {
        '1'
    } else if d == 2 {
        '2'
    } else if d == 3 {
        '3'
    } else if d == 4 {
        '4'
    } else if d == 5 {
        '5'
    } else if d == 6 {
        '6'
    } else if d == 7 {
        '7'
    } else if d == 8 {
        '8'
    } else {
        '9'
    }
}

/// The decimal rendering of a nonnegative integer.
pub open spec fn to_decimal(n: int) -> Seq<char>
    decreases n,
{
    if n < 10 {
        seq![digit_char(n)]
    } else {
        to_decimal(n / 10) + seq![digit_char(n % 10)]
    }
}

/// `digits_val` reads only the characters of its range.
proof fn lemma_digits_val_shift(s: Seq<char>, t: Seq<char>, lo_s: int, lo_t: int, n: int)
    requires
        0 <= n,
        forall|j: int| 0 <= j < n ==> s[lo_s + j] == #[trigger] t[lo_t + j],
    ensures
        digits_val(s, lo_s, lo_s + n) == digits_val(t, lo_t, lo_t + n),
    decreases n,
{
    if n > 0 {
        lemma_digits_val_shift(s, t, lo_s, lo_t, n - 1);
        assert(s[lo_s + (n - 1)] == t[lo_t + (n - 1)]);
    }
}

/// The decimal rendering is all digits and reads back to its value.
proof fn lemma_to_decimal(n: int)
    requires
        0 <= n,
    ensures
        to_decimal(n).len() >= 1,
        forall|j: int| 0 <= j < to_decimal(n).len() ==> is_digit(#[trigger] to_decimal(n)[j]),
        digits_val(to_decimal(n), 0, to_decimal(n).len() as int) == n,
    decreases n,
{
    if n < 10 {
        assert(is_digit(to_decimal(n)[0]));
        assert(digits_val(to_decimal(n), 0, 0) == 0);
        assert(digits_val(to_decimal(n), 0, 1) == to_decimal(n)[0] as u32 - 48);
    } else {
        lemma_to_decimal(n / 10);
        let head = to_decimal(n / 10);
        let m = head.len() as int;
        let full = to_decimal(n);
        assert(full == head + seq![digit_char(n % 10)]);
        assert(forall|j: int| 0 <= j < m ==> full[j] == head[j]);
        assert(is_digit(full[m]));
        lemma_digits_val_shift(full, head, 0, 0, m);
        assert(digits_val(full, 0, m + 1) == digits_val(full, 0, m) * 10 + (full[m] as u32
            - 48));
        assert(digits_val(full, 0, m + 1) == (n / 10) * 10 + n % 10);
    }
}

/// The text of an identifier: identifier characters, not starting with a
/// digit, and not the keyword `fn`.
pub open spec fn ident_text_ok(s: Seq<char>) -> bool {
    s.len() >= 1 && is_ident_start(s[0]) && (forall|j: int|
        0 <= j < s.len() ==> is_ident_char(#[trigger] s[j])) && !(s.len() == 2 && s[0] == 'f'
        && s[1] == 'n')
}

/// The text of a float literal: digits and exactly one `.`.
pub open spec fn float_text_ok(s: Seq<char>) -> bool {
    s.len() >= 1 && (forall|j: int|
        0 <= j < s.len() ==> is_digit(#[trigger] s[j]) || s[j] == '.') && dot_count(
        s,
        0,
        s.len() as int,
    ) == 1
}

/// A tree the parser could have produced: integers nonnegative and in
/// machine range, literal and identifier texts obeying their token rules,
/// and the bound name of a `fn` node an identifier.
pub open spec fn ast_ok(e: SpecExpr) -> bool
    decreases e,
{
    match e {
        SpecExpr::Int(i) => 0 <= i <= i64::MAX,
        SpecExpr::Float(s) => float_text_ok(s),
        SpecExpr::Id(s) => ident_text_ok(s),
        SpecExpr::Binary(op, l, r) => ast_ok(*l) && ast_ok(*r) && (op == BinaryVariant::Fn
            ==> (*l) is Id),
    }
}

/// The rendering character of a binary operator other than `fn`.
pub open spec fn op_char(op: BinaryVariant) -> char {
    match op {
        BinaryVariant::Add => '+',
        BinaryVariant::Sub => '-',
        BinaryVariant::Mul => '*',
        BinaryVariant::Div => '/',
        BinaryVariant::Eq => '=',
        BinaryVariant::Fn => ' ',
    }
}

/// The fully parenthesized rendering of a tree: leaves as their text,
/// `(fn name body)` for a binding, `(left op right)` for the others.
pub open spec fn print_expr(e: SpecExpr) -> Seq<char>
    decreases e,
{
    match e {
        SpecExpr::Int(i) => to_decimal(i),
        SpecExpr::Float(s) => s,
        SpecExpr::Id(s) => s,
        SpecExpr::Binary(op, l, r) => if op == BinaryVariant::Fn {
            let name = match *l {
                SpecExpr::Id(s) => s,
                _ => arbitrary(),
            };
            seq!['(', 'f', 'n', ' '] + name + seq![' '] + print_expr(*r) + seq![')']
        } else {
            seq!['('] + print_expr(*l) + seq![op_char(op)] + print_expr(*r) + seq![')']
        },
    }
}

/// The token kind of an operator character's token.
pub open spec fn op_variant(op: BinaryVariant) -> TokenVariant {
    match op {
        BinaryVariant::Add => TokenVariant::Add,
        BinaryVariant::Sub => TokenVariant::Sub,
        BinaryVariant::Mul => TokenVariant::Mul,
        BinaryVariant::Div => TokenVariant::Div,
        BinaryVariant::Eq => TokenVariant::Equal,
        BinaryVariant::Fn => TokenVariant::Fn,
    }
}

/// The tokens of a rendered tree, when the rendering stands at position `p`
/// of the text.
pub open spec fn tokens_of(e: SpecExpr, p: nat) -> Seq<Token>
    decreases e,
{
    match e {
        SpecExpr::Int(i) => seq![
            Token {
                from: p as usize,
                to: (p + to_decimal(i).len() - 1) as usize,
                variant: TokenVariant::Int,
            },
        ],
        SpecExpr::Float(s) => seq![
            Token { from: p as usize, to: (p + s.len() - 1) as usize, variant: TokenVariant::Float },
        ],
        SpecExpr::Id(s) => seq![
            Token { from: p as usize, to: (p + s.len() - 1) as usize, variant: TokenVariant::Id },
        ],
        SpecExpr::Binary(op, l, r) => if op == BinaryVariant::Fn {
            let name = match *l {
                SpecExpr::Id(s) => s,
                _ => arbitrary(),
            };
            let body_at = p + 5 + name.len();
            seq![
                Token { from: p as usize, to: p as usize, variant: TokenVariant::LParen },
                Token { from: (p + 1) as usize, to: (p + 2) as usize, variant: TokenVariant::Fn },
                Token {
                    from: (p + 4) as usize,
                    to: (p + 4 + name.len() - 1) as usize,
                    variant: TokenVariant::Id,
                },
            ] + tokens_of(*r, body_at) + seq![
                Token {
                    from: (body_at + print_expr(*r).len()) as usize,
                    to: (body_at + print_expr(*r).len()) as usize,
                    variant: TokenVariant::RParen,
                },
            ]
        } else {
            let right_at = p + 2 + print_expr(*l).len();
            seq![Token { from: p as usize, to: p as usize, variant: TokenVariant::LParen }]
                + tokens_of(*l, p + 1) + seq![
                Token {
                    from: (p + 1 + print_expr(*l).len()) as usize,
                    to: (p + 1 + print_expr(*l).len()) as usize,
                    variant: op_variant(op),
                },
            ] + tokens_of(*r, right_at) + seq![
                Token {
                    from: (right_at + print_expr(*r).len()) as usize,
                    to: (right_at + print_expr(*r).len()) as usize,
                    variant: TokenVariant::RParen,
                },
            ]
        },
    }
}

/// A rendered tree always has at least one token, the first at its start.
proof fn lemma_tokens_of_nonempty(e: SpecExpr, p: nat)
    ensures
        tokens_of(e, p).len() >= 1,
    decreases e,
{
}

/// A rendering never opens with a character that could extend or merge with
/// what stands before it: it starts with a digit, a dot, an identifier
/// character or an opening parenthesis.
proof fn lemma_print_first_char(e: SpecExpr)
    requires
        ast_ok(e),
    ensures
        print_expr(e).len() >= 1,
        is_digit(print_expr(e)[0]) || print_expr(e)[0] == '.' || is_ident_start(
            print_expr(e)[0],
        ) || print_expr(e)[0] == '(',
    decreases e,
{
    match e {
        SpecExpr::Int(i) => {
            lemma_to_decimal(i);
        },
        _ => {},
    }
}

/// A character that always ends the token before it: it can open no wider
/// token together with what stands before.
pub open spec fn is_stop_char(c: char) -> bool {
    c == ')' || c == '+' || c == '-' || c == '*' || c == '/' || c == '='
}

proof fn lemma_dot_count_none(text: Seq<char>, lo: int, hi: int)
    requires
        forall|j: int| lo <= j < hi ==> text[j] != '.',
    ensures
        dot_count(text, lo, hi) == 0,
    decreases hi - lo,
{
    if lo < hi {
        lemma_dot_count_none(text, lo, hi - 1);
    }
}

proof fn lemma_dot_count_mono(text: Seq<char>, lo: int, m: int, hi: int)
    requires
        lo <= m <= hi,
    ensures
        dot_count(text, lo, m) <= dot_count(text, lo, hi),
    decreases hi - m,
{
    if m < hi {
        lemma_dot_count_mono(text, lo, m, hi - 1);
    }
}

proof fn lemma_dot_count_shift(s: Seq<char>, t: Seq<char>, lo_s: int, lo_t: int, n: int)
    requires
        0 <= n,
        forall|j: int| 0 <= j < n ==> s[lo_s + j] == #[trigger] t[lo_t + j],
    ensures
        dot_count(s, lo_s, lo_s + n) == dot_count(t, lo_t, lo_t + n),
    decreases n,
{
    if n > 0 {
        lemma_dot_count_shift(s, t, lo_s, lo_t, n - 1);
        assert(s[lo_s + (n - 1)] == t[lo_t + (n - 1)]);
    }
}

/// Scanning a numeric span whose characters hold at most one dot consumes
/// exactly the span: the token ends where the digits do.
proof fn lemma_scan_number_span(text: Seq<char>, from: nat, i: nat, ee: nat, seen_dot: bool)
    requires
        text.len() <= usize::MAX,
        from < i <= ee <= text.len(),
        forall|j: int| from <= j < ee ==> is_digit(#[trigger] text[j]) || text[j] == '.',
        seen_dot == (dot_count(text, from as int, i as int) == 1),
        dot_count(text, from as int, i as int) <= 1,
        dot_count(text, from as int, ee as int) <= 1,
        ee == text.len() || !(is_digit(text[ee as int]) || text[ee as int] == '.'),
    ensures
        scan_number(text, from, i, seen_dot) == (
            Token {
                from: from as usize,
                to: (ee - 1) as usize,
                variant: if dot_count(text, from as int, ee as int) == 1 {
                    TokenVariant::Float
                } else {
                    TokenVariant::Int
                },
            },
            ee,
        ),
    decreases ee - i,
{
    lemma_dot_count_mono(text, from as int, i as int, ee as int);
    if i == ee {
        assert(dot_count(text, from as int, ee as int) == dot_count(
            text,
            from as int,
            i as int,
        ));
    } else {
        let c = text[i as int];
        if is_digit(c) {
            assert(dot_count(text, from as int, i as int + 1) == dot_count(
                text,
                from as int,
                i as int,
            ));
            lemma_scan_number_span(text, from, i + 1, ee, seen_dot);
        } else {
            assert(c == '.');
            assert(dot_count(text, from as int, i as int + 1) == dot_count(
                text,
                from as int,
                i as int,
            ) + 1);
            lemma_dot_count_mono(text, from as int, i as int + 1, ee as int);
            assert(!seen_dot);
            lemma_scan_number_span(text, from, i + 1, ee, true);
        }
    }
}

/// Scanning an identifier span consumes exactly the span; the text `fn` is
/// the keyword, anything else an identifier.
proof fn lemma_scan_ident_span(text: Seq<char>, from: nat, i: nat, ee: nat)
    requires
        text.len() <= usize::MAX,
        from < i <= ee <= text.len(),
        forall|j: int| from <= j < ee ==> is_ident_char(#[trigger] text[j]),
        ee == text.len() || !is_ident_char(text[ee as int]),
    ensures
        scan_ident(text, from, i) == (
            Token {
                from: from as usize,
                to: (ee - 1) as usize,
                variant: if ee - from == 2 && text[from as int] == 'f' && text[from as int + 1]
                    == 'n' {
                    TokenVariant::Fn
                } else {
                    TokenVariant::Id
                },
            },
            ee,
        ),
    decreases ee - i,
{
    if i < ee {
        lemma_scan_ident_span(text, from, i + 1, ee);
    }
}

/// Lexing a rendered tree embedded in a text, followed by nothing or by a
/// stop character, yields exactly the tree's tokens and goes on after them.
proof fn lemma_lex_print(text: Seq<char>, e: SpecExpr, p: nat)
    requires
        text.len() <= usize::MAX,
        ast_ok(e),
        p + print_expr(e).len() <= text.len(),
        forall|j: int|
            0 <= j < print_expr(e).len() ==> text[p + j] == #[trigger] print_expr(e)[j],
        p + print_expr(e).len() == text.len() || is_stop_char(
            text[p + print_expr(e).len() as int],
        ),
    ensures
        lex_spec(text, p) == tokens_of(e, p) + lex_spec(text, (p + print_expr(e).len()) as nat),
    decreases e, 1int,
{
    let pe = print_expr(e);
    let q = (p + pe.len()) as nat;
    match e {
        SpecExpr::Int(i) => {
            lemma_to_decimal(i);
            let n = pe.len();
            assert forall|j: int| p <= j < p + n implies is_digit(#[trigger] text[j]) by {
                assert(text[p + (j - p)] == pe[j - p]);
                assert(is_digit(to_decimal(i)[j - p]));
            }
            assert(dot_count(text, p as int, p as int) == 0);
            lemma_dot_count_none(text, p as int, (p + n) as int);
            lemma_scan_number_span(text, p, p + 1, q, false);
            assert(next_token_spec(text, p) == Some(
                (
                    Token {
                        from: p as usize,
                        to: (p + n - 1) as usize,
                        variant: TokenVariant::Int,
                    },
                    q,
                ),
            ));
            assert(lex_spec(text, p) =~= tokens_of(e, p) + lex_spec(text, q));
        },
        SpecExpr::Float(s) => {
            let n = pe.len();
            assert forall|j: int|
                p <= j < p + n implies is_digit(#[trigger] text[j]) || text[j] == '.' by {
                assert(text[p + (j - p)] == pe[j - p]);
                assert(is_digit(s[j - p]) || s[j - p] == '.');
            }
            lemma_dot_count_shift(text, s, p as int, 0, n as int);
            assert(dot_count(text, p as int, (p + n) as int) == 1);
            assert(dot_count(text, p as int, p as int) == 0);
            assert(text[p as int] == s[0]);
            lemma_scan_number_span(text, p, p + 1, q, text[p as int] == '.');
            assert(next_token_spec(text, p) == Some(
                (
                    Token {
                        from: p as usize,
                        to: (p + n - 1) as usize,
                        variant: TokenVariant::Float,
                    },
                    q,
                ),
            ));
            assert(lex_spec(text, p) =~= tokens_of(e, p) + lex_spec(text, q));
        },
        SpecExpr::Id(s) => {
            let n = pe.len();
            assert forall|j: int| p <= j < p + n implies is_ident_char(#[trigger] text[j]) by {
                assert(text[p + (j - p)] == pe[j - p]);
                assert(is_ident_char(s[j - p]));
            }
            assert(is_ident_start(text[p as int]));
            lemma_scan_ident_span(text, p, p + 1, q);
            assert(!(q - p == 2 && text[p as int] == 'f' && text[p as int + 1] == 'n'));
            assert(next_token_spec(text, p) == Some(
                (
                    Token { from: p as usize, to: (p + n - 1) as usize, variant: TokenVariant::Id },
                    q,
                ),
            ));
            assert(lex_spec(text, p) =~= tokens_of(e, p) + lex_spec(text, q));
        },
        SpecExpr::Binary(op, l, r) => {
            if op == BinaryVariant::Fn {
                lemma_lex_print_fn(text, e, p);
            } else {
                lemma_lex_print_binary(text, e, p);
            }
        },
    }
}

proof fn lemma_lex_print_binary(text: Seq<char>, e: SpecExpr, p: nat)
    requires
        text.len() <= usize::MAX,
        ast_ok(e),
        e is Binary && e->Binary_0 != BinaryVariant::Fn,
        p + print_expr(e).len() <= text.len(),
        forall|j: int|
            0 <= j < print_expr(e).len() ==> text[p + j] == #[trigger] print_expr(e)[j],
        p + print_expr(e).len() == text.len() || is_stop_char(
            text[p + print_expr(e).len() as int],
        ),
    ensures
        lex_spec(text, p) == tokens_of(e, p) + lex_spec(text, (p + print_expr(e).len()) as nat),
    decreases e, 0int,
{
    let op = e->Binary_0;
    let l = *e->Binary_1;
    let r = *e->Binary_2;
    let pe = print_expr(e);
    let pl = print_expr(l);
    let pr = print_expr(r);
    let q = (p + pe.len()) as nat;
    assert(pe == seq!['('] + pl + seq![op_char(op)] + pr + seq![')']);
    let n1 = 1 + pl.len() as int;
    let n2 = n1 + 1;
    let n3 = n2 + pr.len() as int;
    assert(pe.len() == n3 + 1);
    assert(pe[0] == '(');
    assert(text[p as int] == pe[0]);
    assert forall|j: int| 0 <= j < pl.len() implies text[p + 1 + j] == #[trigger] pl[j] by {
        assert(pe[1 + j] == pl[j]);
        assert(text[p + (1 + j)] == pe[1 + j]);
    }
    assert(pe[n1] == op_char(op));
    assert(text[p + n1] == pe[n1]);
    assert forall|j: int| 0 <= j < pr.len() implies text[p + n2 + j] == #[trigger] pr[j] by {
        assert(pe[n2 + j] == pr[j]);
        assert(text[p + (n2 + j)] == pe[n2 + j]);
    }
    assert(pe[n3] == ')');
    assert(text[p + n3] == pe[n3]);
    lemma_print_first_char(l);
    lemma_print_first_char(r);
    // the opening parenthesis
    assert(next_token_spec(text, p) == Some((single_token(p, TokenVariant::LParen), p + 1)));
    // the left operand, ended by the operator character
    assert(is_stop_char(text[p as int + 1 + pl.len() as int]));
    lemma_lex_print(text, l, p + 1);
    // the operator character; after `=` stands the first character of the
    // right operand, never `>`, so no arrow forms
    let p1 = (p + n1) as nat;
    if op_char(op) == '=' {
        assert(text[p1 as int + 1] == pr[0]);
        assert(next_token_spec(text, p1) == Some(
            (single_token(p1, TokenVariant::Equal), p1 + 1),
        ));
        assert(op_variant(op) == TokenVariant::Equal);
    } else {
        assert(next_token_spec(text, p1) == Some((single_token(p1, op_variant(op)), p1 + 1)));
    }
    // the right operand, ended by the closing parenthesis
    lemma_lex_print(text, r, (p + n2) as nat);
    let p3 = (p + n3) as nat;
    assert(next_token_spec(text, p3) == Some((single_token(p3, TokenVariant::RParen), p3 + 1)));
    assert(lex_spec(text, p3) == seq![single_token(p3, TokenVariant::RParen)] + lex_spec(
        text,
        q,
    ));
    assert(lex_spec(text, p) =~= tokens_of(e, p) + lex_spec(text, q));
}

proof fn lemma_lex_print_fn(text: Seq<char>, e: SpecExpr, p: nat)
    requires
        text.len() <= usize::MAX,
        ast_ok(e),
        e is Binary && e->Binary_0 == BinaryVariant::Fn,
        p + print_expr(e).len() <= text.len(),
        forall|j: int|
            0 <= j < print_expr(e).len() ==> text[p + j] == #[trigger] print_expr(e)[j],
        p + print_expr(e).len() == text.len() || is_stop_char(
            text[p + print_expr(e).len() as int],
        ),
    ensures
        lex_spec(text, p) == tokens_of(e, p) + lex_spec(text, (p + print_expr(e).len()) as nat),
    decreases e, 0int,
{
    let l = *e->Binary_1;
    let r = *e->Binary_2;
    let name = l->Id_0;
    let pe = print_expr(e);
    let pr = print_expr(r);
    let nl = name.len() as int;
    let q = (p + pe.len()) as nat;
    assert(pe == seq!['(', 'f', 'n', ' '] + name + seq![' '] + pr + seq![')']);
    let body_at = 5 + nl;
    let n3 = body_at + pr.len() as int;
    assert(pe.len() == n3 + 1);
    assert(pe[0] == '(' && pe[1] == 'f' && pe[2] == 'n' && pe[3] == ' ');
    assert(text[p as int] == pe[0] && text[p as int + 1] == pe[1] && text[p as int + 2] == pe[2]
        && text[p as int + 3] == pe[3]);
    assert forall|j: int| 0 <= j < nl implies text[p + 4 + j] == #[trigger] name[j] by {
        assert(pe[4 + j] == name[j]);
        assert(text[p + (4 + j)] == pe[4 + j]);
    }
    assert(pe[4 + nl] == ' ');
    assert(text[p + 4 + nl] == pe[4 + nl]);
    assert forall|j: int| 0 <= j < pr.len() implies text[p + body_at + j] == #[trigger] pr[j]
        by {
        assert(pe[body_at + j] == pr[j]);
        assert(text[p + (body_at + j)] == pe[body_at + j]);
    }
    assert(pe[n3] == ')');
    assert(text[p + n3] == pe[n3]);
    lemma_print_first_char(r);
    // the opening parenthesis
    assert(next_token_spec(text, p) == Some((single_token(p, TokenVariant::LParen), p + 1)));
    // the keyword, ended by the space
    lemma_scan_ident_span(text, p + 1, p + 2, p + 3);
    assert(next_token_spec(text, p + 1) == Some(
        (
            Token { from: (p + 1) as usize, to: (p + 2) as usize, variant: TokenVariant::Fn },
            p + 3,
        ),
    ));
    // the space before the name carries no token
    assert(next_token_spec(text, p + 3) == next_token_spec(text, p + 4));
    assert(lex_spec(text, p + 3) == lex_spec(text, p + 4));
    // the bound name, ended by the space; it is not the keyword
    assert(ast_ok(l));
    assert(ident_text_ok(name));
    assert(text[p as int + 4] == name[0]);
    assert forall|j: int| p + 4 <= j < p + 4 + nl implies is_ident_char(#[trigger] text[j]) by {
        assert(text[p as int + 4 + (j - p - 4)] == name[j - p - 4]);
        assert(is_ident_char(name[j - p - 4]));
    }
    lemma_scan_ident_span(text, p + 4, p + 5, (p + 4 + nl) as nat);
    assert(!((p + 4 + nl) - (p + 4) == 2 && text[p as int + 4] == 'f' && text[p as int + 5] == 'n'));
    assert(next_token_spec(text, p + 4) == Some(
        (
            Token {
                from: (p + 4) as usize,
                to: (p + 4 + nl - 1) as usize,
                variant: TokenVariant::Id,
            },
            (p + 4 + nl) as nat,
        ),
    ));
    // the space before the body carries no token
    assert(next_token_spec(text, (p + 4 + nl) as nat) == next_token_spec(
        text,
        (p + 5 + nl) as nat,
    ));
    assert(lex_spec(text, (p + 4 + nl) as nat) == lex_spec(text, (p + 5 + nl) as nat));
    // the body, ended by the closing parenthesis
    lemma_lex_print(text, r, (p + body_at) as nat);
    let p3 = (p + n3) as nat;
    assert(next_token_spec(text, p3) == Some((single_token(p3, TokenVariant::RParen), p3 + 1)));
    assert(lex_spec(text, p3) == seq![single_token(p3, TokenVariant::RParen)] + lex_spec(
        text,
        q,
    ));
    let fn_tok = Token { from: (p + 1) as usize, to: (p + 2) as usize, variant: TokenVariant::Fn };
    let id_tok = Token {
        from: (p + 4) as usize,
        to: (p + 4 + nl - 1) as usize,
        variant: TokenVariant::Id,
    };
    assert(lex_spec(text, p) == seq![single_token(p, TokenVariant::LParen)] + lex_spec(
        text,
        p + 1,
    ));
    assert(lex_spec(text, p + 1) == seq![fn_tok] + lex_spec(text, p + 3));
    assert(lex_spec(text, p + 4) == seq![id_tok] + lex_spec(text, (p + 4 + nl) as nat));
    assert(tokens_of(e, p) == seq![
        single_token(p, TokenVariant::LParen),
        fn_tok,
        id_tok,
    ] + tokens_of(r, (p + 5 + nl) as nat) + seq![single_token(p3, TokenVariant::RParen)]);
    assert(lex_spec(text, p) =~= tokens_of(e, p) + lex_spec(text, q));
}

/// A token kind that could continue an expression: the layers above the
/// operand rule consume it when it follows a complete operand.
pub open spec fn continues_expr(v: TokenVariant) -> bool {
    v == TokenVariant::Add || v == TokenVariant::Sub || v == TokenVariant::Mul || v
        == TokenVariant::Div || v == TokenVariant::Equal
}

/// When the operand rule consumes a prefix and what follows continues no
/// expression, every layer above passes the operand's result through.
proof fn lemma_layers_pass(text: Seq<char>, toks: Seq<Token>, v: SpecExpr, rem: Seq<Token>)
    requires
        spec_operand(text, toks) == Ok::<(SpecExpr, Seq<Token>), crate::parser::SpecError>(
            (v, rem),
        ),
        rem.len() < toks.len(),
        rem.len() == 0 || !continues_expr(rem[0].variant),
    ensures
        spec_expr(text, toks) == Ok::<(SpecExpr, Seq<Token>), crate::parser::SpecError>((v, rem)),
{
    assert(spec_unary(text, toks) == Ok::<(SpecExpr, Seq<Token>), crate::parser::SpecError>(
        (v, rem),
    ));
    assert(spec_mul_div_more(text, v, rem) == Ok::<
        (SpecExpr, Seq<Token>),
        crate::parser::SpecError,
    >((v, rem)));
    assert(spec_mul_div(text, toks) == Ok::<(SpecExpr, Seq<Token>), crate::parser::SpecError>(
        (v, rem),
    ));
    assert(spec_add_sub_more(text, v, rem) == Ok::<
        (SpecExpr, Seq<Token>),
        crate::parser::SpecError,
    >((v, rem)));
    assert(spec_add_sub(text, toks) == Ok::<(SpecExpr, Seq<Token>), crate::parser::SpecError>(
        (v, rem),
    ));
    assert(spec_equality(text, toks) == Ok::<(SpecExpr, Seq<Token>), crate::parser::SpecError>(
        (v, rem),
    ));
}

/// Parsing an operand at the start of a rendered tree's tokens consumes
/// exactly those tokens and rebuilds the tree.
#[verifier::rlimit(100)]
proof fn lemma_parse_operand_print(text: Seq<char>, e: SpecExpr, p: nat, rest: Seq<Token>)
    requires
        text.len() <= usize::MAX,
        ast_ok(e),
        p + print_expr(e).len() <= text.len(),
        forall|j: int|
            0 <= j < print_expr(e).len() ==> text[p + j] == #[trigger] print_expr(e)[j],
    ensures
        spec_operand(text, tokens_of(e, p) + rest) == Ok::<
            (SpecExpr, Seq<Token>),
            crate::parser::SpecError,
        >((e, rest)),
    decreases e, 3int,
{
    let pe = print_expr(e);
    let toks = tokens_of(e, p) + rest;
    assert(toks[0] == tokens_of(e, p)[0]);
    match e {
        SpecExpr::Int(i) => {
            lemma_to_decimal(i);
            let n = pe.len() as int;
            assert forall|j: int| 0 <= j < n implies text[p + j] == #[trigger] to_decimal(
                i,
            )[j] by {
                assert(text[p + j] == pe[j]);
            }
            lemma_digits_val_shift(text, to_decimal(i), p as int, 0, n);
            assert(digits_val(text, p as int, p + n) == i);
            assert(toks[0].from as int == p && toks[0].to + 1 == p + n);
            assert(toks.drop_first() =~= rest);
        },
        SpecExpr::Float(s) => {
            assert(text.subrange(p as int, p + s.len() as int) =~= s);
            assert(toks.drop_first() =~= rest);
        },
        SpecExpr::Id(s) => {
            assert(text.subrange(p as int, p + s.len() as int) =~= s);
            assert(toks.drop_first() =~= rest);
        },
        SpecExpr::Binary(op, l, r) => {
            if op == BinaryVariant::Fn {
                lemma_parse_operand_print_fn(text, e, p, rest);
            } else {
                lemma_parse_operand_print_paren(text, e, p, rest);
            }
        },
    }
}

#[verifier::rlimit(100)]
proof fn lemma_parse_operand_print_fn(text: Seq<char>, e: SpecExpr, p: nat, rest: Seq<Token>)
    requires
        text.len() <= usize::MAX,
        ast_ok(e),
        e is Binary && e->Binary_0 == BinaryVariant::Fn,
        p + print_expr(e).len() <= text.len(),
        forall|j: int|
            0 <= j < print_expr(e).len() ==> text[p + j] == #[trigger] print_expr(e)[j],
    ensures
        spec_operand(text, tokens_of(e, p) + rest) == Ok::<
            (SpecExpr, Seq<Token>),
            crate::parser::SpecError,
        >((e, rest)),
    decreases e, 2int,
{
    let r = e->Binary_2;
    let name = (*e->Binary_1)->Id_0;
    let pe = print_expr(e);
    let pr = print_expr(*r);
    let nl = name.len() as int;
    let body_at = (p + 5 + name.len()) as nat;
    let toks = tokens_of(e, p) + rest;
    assert(toks[0] == tokens_of(e, p)[0]);
    assert(pe == seq!['(', 'f', 'n', ' '] + name + seq![' '] + pr + seq![')']);
    let lp = single_token(p, TokenVariant::LParen);
    let fn_tok = Token {
        from: (p + 1) as usize,
        to: (p + 2) as usize,
        variant: TokenVariant::Fn,
    };
    let id_tok = Token {
        from: (p + 4) as usize,
        to: (p + 4 + nl - 1) as usize,
        variant: TokenVariant::Id,
    };
    let rp = single_token((body_at + pr.len()) as nat, TokenVariant::RParen);
    let rest2 = seq![rp] + rest;
    assert(tokens_of(e, p) == seq![lp, fn_tok, id_tok] + tokens_of(*r, body_at) + seq![rp]);
    lemma_tokens_of_nonempty(*r, body_at);
    lemma_parse_inner_fn(text, e, p, rest2);
    let inner = toks.drop_first();
    assert(inner =~= seq![fn_tok, id_tok] + tokens_of(*r, body_at) + rest2);
    assert(spec_expr(text, inner) == Ok::<(SpecExpr, Seq<Token>), crate::parser::SpecError>(
        (e, rest2),
    ));
    assert(rest2.drop_first() =~= rest);
    assert(spec_eat(rest2, TokenVariant::RParen) == Ok::<
        (Token, Seq<Token>),
        crate::parser::SpecError,
    >((rp, rest)));
}

/// Parsing what stands behind the opening parenthesis of a rendered `fn`
/// node: the keyword, the bound name, the body.
#[verifier::rlimit(100)]
proof fn lemma_parse_inner_fn(text: Seq<char>, e: SpecExpr, p: nat, rest2: Seq<Token>)
    requires
        text.len() <= usize::MAX,
        ast_ok(e),
        e is Binary && e->Binary_0 == BinaryVariant::Fn,
        p + print_expr(e).len() <= text.len(),
        forall|j: int|
            0 <= j < print_expr(e).len() ==> text[p + j] == #[trigger] print_expr(e)[j],
        rest2.len() >= 1 && !continues_expr(rest2[0].variant),
    ensures
        ({
            let r = e->Binary_2;
            let name = (*e->Binary_1)->Id_0;
            let nl = name.len() as int;
            let body_at = (p + 5 + name.len()) as nat;
            let fn_tok = Token {
                from: (p + 1) as usize,
                to: (p + 2) as usize,
                variant: TokenVariant::Fn,
            };
            let id_tok = Token {
                from: (p + 4) as usize,
                to: (p + 4 + nl - 1) as usize,
                variant: TokenVariant::Id,
            };
            spec_expr(text, seq![fn_tok, id_tok] + tokens_of(*r, body_at) + rest2) == Ok::<
                (SpecExpr, Seq<Token>),
                crate::parser::SpecError,
            >((e, rest2))
        }),
    decreases e, 1int,
{
    let r = e->Binary_2;
    let name = (*e->Binary_1)->Id_0;
    let pe = print_expr(e);
    let pr = print_expr(*r);
    let nl = name.len() as int;
    let body_at = (p + 5 + name.len()) as nat;
    assert(pe == seq!['(', 'f', 'n', ' '] + name + seq![' '] + pr + seq![')']);
    assert forall|j: int| 0 <= j < pr.len() implies text[body_at + j] == #[trigger] pr[j] by {
        assert(pe[5 + nl + j] == pr[j]);
        assert(text[p + (5 + nl + j)] == pe[5 + nl + j]);
    }
    assert forall|j: int| 0 <= j < nl implies text[p + 4 + j] == #[trigger] name[j] by {
        assert(pe[4 + j] == name[j]);
        assert(text[p + (4 + j)] == pe[4 + j]);
    }
    let fn_tok = Token {
        from: (p + 1) as usize,
        to: (p + 2) as usize,
        variant: TokenVariant::Fn,
    };
    let id_tok = Token {
        from: (p + 4) as usize,
        to: (p + 4 + nl - 1) as usize,
        variant: TokenVariant::Id,
    };
    let c = tokens_of(*r, body_at);
    lemma_tokens_of_nonempty(*r, body_at);
    let inner = seq![fn_tok, id_tok] + c + rest2;
    assert(inner[0] == fn_tok);
    let after_kw = inner.drop_first();
    assert(after_kw =~= seq![id_tok] + (c + rest2));
    assert(after_kw[0] == id_tok);
    assert(after_kw.drop_first() =~= c + rest2);
    assert(spec_eat(after_kw, TokenVariant::Id) == Ok::<
        (Token, Seq<Token>),
        crate::parser::SpecError,
    >((id_tok, c + rest2)));
    assert(text.subrange(p as int + 4, p as int + 4 + nl) =~= name);
    lemma_parse_expr_print(text, *r, body_at, rest2);
    assert((*e->Binary_1) == SpecExpr::Id(name));
    assert(spec_operand(text, inner) == Ok::<(SpecExpr, Seq<Token>), crate::parser::SpecError>(
        (e, rest2),
    ));
    lemma_layers_pass(text, inner, e, rest2);
}

#[verifier::rlimit(100)]
proof fn lemma_parse_operand_print_paren(text: Seq<char>, e: SpecExpr, p: nat, rest: Seq<Token>)
    requires
        text.len() <= usize::MAX,
        ast_ok(e),
        e is Binary && e->Binary_0 != BinaryVariant::Fn,
        p + print_expr(e).len() <= text.len(),
        forall|j: int|
            0 <= j < print_expr(e).len() ==> text[p + j] == #[trigger] print_expr(e)[j],
    ensures
        spec_operand(text, tokens_of(e, p) + rest) == Ok::<
            (SpecExpr, Seq<Token>),
            crate::parser::SpecError,
        >((e, rest)),
    decreases e, 2int,
{
    let op = e->Binary_0;
    let l = e->Binary_1;
    let r = e->Binary_2;
    let pe = print_expr(e);
    let toks = tokens_of(e, p) + rest;
    assert(toks[0] == tokens_of(e, p)[0]);
    lemma_parse_inner(text, e, p, seq![
                    single_token(
                        (p + 2 + print_expr(*l).len() + print_expr(*r).len()) as nat,
                        TokenVariant::RParen,
                    ),
                ] + rest);
                let pl = print_expr(*l);
                let pr = print_expr(*r);
                let opt = single_token((p + 1 + pl.len()) as nat, op_variant(op));
                let rp = single_token((p + 2 + pl.len() + pr.len()) as nat, TokenVariant::RParen);
                let rest2 = seq![rp] + rest;
                assert(tokens_of(e, p) == seq![single_token(p, TokenVariant::LParen)]
                    + tokens_of(*l, p + 1) + seq![opt] + tokens_of(*r, (p + 2 + pl.len()) as nat)
                    + seq![rp]);
                let inner = toks.drop_first();
                assert(inner =~= tokens_of(*l, p + 1) + seq![opt] + tokens_of(
                    *r,
                    (p + 2 + pl.len()) as nat,
                ) + rest2);
                assert(spec_expr(text, inner) == Ok::<
                    (SpecExpr, Seq<Token>),
                    crate::parser::SpecError,
                >((e, rest2)));
                lemma_tokens_of_nonempty(*l, p + 1);
                lemma_tokens_of_nonempty(*r, (p + 2 + pl.len()) as nat);
                assert(rest2.drop_first() =~= rest);
                assert(spec_eat(rest2, TokenVariant::RParen) == Ok::<
                    (Token, Seq<Token>),
                    crate::parser::SpecError,
                >((rp, rest)));
}

/// Parsing a whole expression at the start of a rendered tree's tokens,
/// followed by nothing that could continue it, consumes exactly those tokens
/// and rebuilds the tree.
proof fn lemma_parse_expr_print(text: Seq<char>, e: SpecExpr, p: nat, rest: Seq<Token>)
    requires
        text.len() <= usize::MAX,
        ast_ok(e),
        p + print_expr(e).len() <= text.len(),
        forall|j: int|
            0 <= j < print_expr(e).len() ==> text[p + j] == #[trigger] print_expr(e)[j],
        rest.len() == 0 || !continues_expr(rest[0].variant),
    ensures
        spec_expr(text, tokens_of(e, p) + rest) == Ok::<
            (SpecExpr, Seq<Token>),
            crate::parser::SpecError,
        >((e, rest)),
    decreases e, 4int,
{
    lemma_parse_operand_print(text, e, p, rest);
    lemma_tokens_of_nonempty(e, p);
    assert(rest.len() == 0 || rest[0] == (tokens_of(e, p) + rest)[tokens_of(e, p).len() as int]);
    lemma_layers_pass(text, tokens_of(e, p) + rest, e, rest);
}

/// Parsing the inside of a rendered binary node: the left operand, the
/// operator, the right operand; what follows is left alone.
#[verifier::rlimit(100)]
proof fn lemma_parse_inner(text: Seq<char>, e: SpecExpr, p: nat, rest2: Seq<Token>)
    requires
        text.len() <= usize::MAX,
        ast_ok(e),
        e is Binary && e->Binary_0 != BinaryVariant::Fn,
        p + print_expr(e).len() <= text.len(),
        forall|j: int|
            0 <= j < print_expr(e).len() ==> text[p + j] == #[trigger] print_expr(e)[j],
        rest2.len() == 0 || !continues_expr(rest2[0].variant),
    ensures
        ({
            let l = *e->Binary_1;
            let r = *e->Binary_2;
            let op = e->Binary_0;
            let pl = print_expr(l);
            let opt = single_token((p + 1 + pl.len()) as nat, op_variant(op));
            spec_expr(
                text,
                tokens_of(l, p + 1) + seq![opt] + tokens_of(r, (p + 2 + pl.len()) as nat)
                    + rest2,
            ) == Ok::<(SpecExpr, Seq<Token>), crate::parser::SpecError>((e, rest2))
        }),
    decreases e, 1int,
{
    let op = e->Binary_0;
    let l = *e->Binary_1;
    let r = *e->Binary_2;
    let pe = print_expr(e);
    let pl = print_expr(l);
    let pr = print_expr(r);
    assert(pe == seq!['('] + pl + seq![op_char(op)] + pr + seq![')']);
    let n2 = 2 + pl.len() as int;
    assert forall|j: int| 0 <= j < pl.len() implies text[p + 1 + j] == #[trigger] pl[j] by {
        assert(pe[1 + j] == pl[j]);
        assert(text[p + (1 + j)] == pe[1 + j]);
    }
    assert forall|j: int| 0 <= j < pr.len() implies text[p + n2 + j] == #[trigger] pr[j] by {
        assert(pe[n2 + j] == pr[j]);
        assert(text[p + (n2 + j)] == pe[n2 + j]);
    }
    let opt = single_token((p + 1 + pl.len()) as nat, op_variant(op));
    let a = tokens_of(l, p + 1);
    let c = tokens_of(r, (p + 2 + pl.len()) as nat);
    let toks = a + seq![opt] + c + rest2;
    lemma_tokens_of_nonempty(l, p + 1);
    lemma_tokens_of_nonempty(r, (p + 2 + pl.len()) as nat);
    let rem_a = seq![opt] + c + rest2;
    assert(toks =~= a + rem_a);
    lemma_parse_operand_print(text, l, p + 1, rem_a);
    assert(spec_operand(text, toks) == Ok::<(SpecExpr, Seq<Token>), crate::parser::SpecError>(
        (l, rem_a),
    ));
    assert(rem_a[0] == opt);
    assert(rem_a.drop_first() =~= c + rest2);
    lemma_parse_operand_print(text, r, (p + 2 + pl.len()) as nat, rest2);
    assert(spec_operand(text, rem_a.drop_first()) == Ok::<
        (SpecExpr, Seq<Token>),
        crate::parser::SpecError,
    >((r, rest2)));
    assert(e == SpecExpr::Binary(op, Box::new(l), Box::new(r)));
    let okl = Ok::<(SpecExpr, Seq<Token>), crate::parser::SpecError>((l, rem_a));
    let okr = Ok::<(SpecExpr, Seq<Token>), crate::parser::SpecError>((r, rest2));
    let oke = Ok::<(SpecExpr, Seq<Token>), crate::parser::SpecError>((e, rest2));
    assert(spec_unary(text, toks) == okl);
    assert(spec_unary(text, rem_a.drop_first()) == okr);
    if op == BinaryVariant::Mul || op == BinaryVariant::Div {
        assert(spec_mul_div_more(text, e, rest2) == oke);
        assert(spec_mul_div_more(text, l, rem_a) == oke);
        assert(spec_mul_div(text, toks) == oke);
        assert(spec_add_sub_more(text, e, rest2) == oke);
        assert(spec_add_sub(text, toks) == oke);
        assert(spec_equality(text, toks) == oke);
    } else if op == BinaryVariant::Add || op == BinaryVariant::Sub {
        assert(spec_mul_div_more(text, l, rem_a) == okl);
        assert(spec_mul_div(text, toks) == okl);
        assert(spec_mul_div_more(text, r, rest2) == okr);
        assert(spec_mul_div(text, rem_a.drop_first()) == okr);
        assert(spec_add_sub_more(text, e, rest2) == oke);
        assert(spec_add_sub_more(text, l, rem_a) == oke);
        assert(spec_add_sub(text, toks) == oke);
        assert(spec_equality(text, toks) == oke);
    } else {
        assert(op == BinaryVariant::Eq);
        assert(spec_mul_div_more(text, l, rem_a) == okl);
        assert(spec_mul_div(text, toks) == okl);
        assert(spec_add_sub_more(text, l, rem_a) == okl);
        assert(spec_add_sub(text, toks) == okl);
        assert(spec_mul_div_more(text, r, rest2) == okr);
        assert(spec_mul_div(text, rem_a.drop_first()) == okr);
        assert(spec_add_sub_more(text, r, rest2) == okr);
        assert(spec_add_sub(text, rem_a.drop_first()) == okr);
        assert(spec_equality(text, toks) == oke);
    }
    assert(spec_expr(text, toks) == oke);
}

/// The round-trip law: the rendering of any well-formed tree parses
/// successfully, back to the very same tree.
pub proof fn lemma_print_parse_round_trip(e: SpecExpr)
    requires
        ast_ok(e),
        print_expr(e).len() <= usize::MAX,
    ensures
        spec_parse(print_expr(e)) == Ok::<SpecExpr, crate::parser::SpecError>(e),
{
    let text = print_expr(e);
    assert(forall|j: int| 0 <= j < text.len() ==> text[0 + j] == #[trigger] text[j]);
    lemma_lex_print(text, e, 0);
    assert(lex_spec(text, text.len() as nat) =~= Seq::<Token>::empty());
    assert(lex_spec(text, 0) =~= tokens_of(e, 0));
    let none: Seq<Token> = Seq::empty();
    lemma_parse_expr_print(text, e, 0, none);
    assert(tokens_of(e, 0) + none =~= tokens_of(e, 0));
    assert(spec_expr(text, lex_spec(text, 0)) == Ok::<
        (SpecExpr, Seq<Token>),
        crate::parser::SpecError,
    >((e, none)));
}

} // verus!
