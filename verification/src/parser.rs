//! Recursive-descent parser: pulls tokens from the lexer and builds an
//! abstract syntax tree, or reports the first error with its source span.
//! Precedence layers, weakest first: equality, additive, multiplicative,
//! unary, operand; the binary layers are left-associative.

use vstd::prelude::*;

use crate::lexer::{
    is_digit, lex_spec, next_token_spec, tokens_wf, token_wf, Lexer, Token, TokenVariant,
};

verus! {

/// The operator of a binary node.
#[derive(PartialEq, Eq, Structural, Debug, Clone, Copy)]
pub enum BinaryVariant {
    Fn,
    Add,
    Sub,
    Mul,
    Div,
    Eq,
}

/// An expression tree. Each binary node exclusively owns its two children.
/// A float literal carries the exact text of its token; an identifier
/// carries its name.
#[derive(Debug)]
pub enum Expr {
    Int(i64),
    Float(String),
    Id(String),
    Binary(BinaryVariant, Box<Expr>, Box<Expr>),
}

/// The mathematical value of an expression tree: integers unbounded,
/// strings as character sequences.
pub enum SpecExpr {
    Int(int),
    Float(Seq<char>),
    Id(Seq<char>),
    Binary(BinaryVariant, Box<SpecExpr>, Box<SpecExpr>),
}

impl View for Expr {
    type V = SpecExpr;

    open spec fn view(&self) -> SpecExpr
        decreases self,
    {
        match self {
            Expr::Int(i) => SpecExpr::Int(*i as int),
            Expr::Float(s) => SpecExpr::Float(s@),
            Expr::Id(s) => SpecExpr::Id(s@),
            Expr::Binary(v, l, r) => SpecExpr::Binary(
                *v,
                Box::new((**l).view()),
                Box::new((**r).view()),
            ),
        }
    }
}

/// A parse error: the offending span and a message naming the expected and
/// the actual token kinds. The span is `(0, 0)` when the input ended with no
/// token to blame.
#[derive(Debug)]
pub struct Error {
    pub from: usize,
    pub to: usize,
    pub message: String,
}

/// The mathematical value of an `Error`.
pub struct SpecError {
    pub from: int,
    pub to: int,
    pub message: Seq<char>,
}

impl View for Error {
    type V = SpecError;

    open spec fn view(&self) -> SpecError {
        SpecError { from: self.from as int, to: self.to as int, message: self.message@ }
    }
}

/// The value of the decimal digits of `text` in the index range `[lo, hi)`.
pub open spec fn digits_val(text: Seq<char>, lo: int, hi: int) -> int
    decreases hi - lo,
{
    if lo >= hi {
        0
    } else {
        digits_val(text, lo, hi - 1) * 10 + (text[hi - 1] as u32 - 48)
    }
}

proof fn lemma_digits_val_nonneg(text: Seq<char>, lo: int, hi: int)
    requires
        forall|j: int| lo <= j < hi ==> is_digit(text[j]),
    ensures
        0 <= digits_val(text, lo, hi),
    decreases hi - lo,
{
    if lo < hi {
        lemma_digits_val_nonneg(text, lo, hi - 1);
    }
}

proof fn lemma_digits_val_mono(text: Seq<char>, lo: int, m: int, hi: int)
    requires
        lo <= m <= hi,
        forall|j: int| lo <= j < hi ==> is_digit(text[j]),
    ensures
        digits_val(text, lo, m) <= digits_val(text, lo, hi),
    decreases hi - m,
{
    if m < hi {
        lemma_digits_val_mono(text, lo, m, hi - 1);
        lemma_digits_val_nonneg(text, lo, hi - 1);
    }
}

/// The value of a span of decimal digits, as an `i64`. The span must be
/// in range, all digits, and its value must fit.
fn digits_to_i64(text: &str, from: usize, to: usize) -> (r: i64)
    requires
        text@.len() <= usize::MAX,
        from <= to < text@.len(),
        forall|j: int| from <= j <= to ==> is_digit(text@[j]),
        digits_val(text@, from as int, to + 1) <= i64::MAX,
    ensures
        r as int == digits_val(text@, from as int, to + 1),
{
    let mut acc: i64 = 0;
    let mut j = from;
    while j <= to
        invariant
            text@.len() <= usize::MAX,
            from <= j <= to + 1,
            to < text@.len(),
            forall|k: int| from <= k <= to ==> is_digit(text@[k]),
            digits_val(text@, from as int, to + 1) <= i64::MAX,
            acc as int == digits_val(text@, from as int, j as int),
            0 <= acc,
        decreases to + 1 - j,
    {
        let c = text.get_char(j);
        let d = (c as u32) - 48;
        proof {
            lemma_digits_val_nonneg(text@, from as int, j + 1);
            lemma_digits_val_mono(text@, from as int, j + 1, to + 1);
        }
        acc = acc * 10 + (d as i64);
        j += 1;
    }
    acc
}

/// The name under which a token kind is reported in error messages.
pub open spec fn variant_name(v: TokenVariant) -> Seq<char> {
    match v {
        TokenVariant::Add => "Add"@,
        TokenVariant::Sub => "Sub"@,
        TokenVariant::Mul => "Mul"@,
        TokenVariant::Div => "Div"@,
        TokenVariant::Pow => "Pow"@,
        TokenVariant::Equal => "Equal"@,
        TokenVariant::Int => "Int"@,
        TokenVariant::Arrow => "Arrow"@,
        TokenVariant::Float => "Float"@,
        TokenVariant::Id => "Id"@,
        TokenVariant::RParen => "RParen"@,
        TokenVariant::LParen => "LParen"@,
        TokenVariant::Fn => "Fn"@,
        TokenVariant::Invalid => "Invalid"@,
    }
}

fn variant_name_str(v: TokenVariant) -> (r: &'static str)
    ensures
        r@ == variant_name(v),
{
    match v {
        TokenVariant::Add => "Add",
        TokenVariant::Sub => "Sub",
        TokenVariant::Mul => "Mul",
        TokenVariant::Div => "Div",
        TokenVariant::Pow => "Pow",
        TokenVariant::Equal => "Equal",
        TokenVariant::Int => "Int",
        TokenVariant::Arrow => "Arrow",
        TokenVariant::Float => "Float",
        TokenVariant::Id => "Id",
        TokenVariant::RParen => "RParen",
        TokenVariant::LParen => "LParen",
        TokenVariant::Fn => "Fn",
        TokenVariant::Invalid => "Invalid",
    }
}

/// The text of every error message: what was expected, what stood there.
pub open spec fn expected_got(expected: Seq<char>, got: Seq<char>) -> Seq<char> {
    "expected "@ + expected + " got "@ + got
}

fn build_expected_got(expected: &str, got: &str) -> (r: String)
    ensures
        r@ == expected_got(expected@, got@),
{
    let mut s = String::from_str("expected ");
    s.append(expected);
    s.append(" got ");
    s.append(got);
    s
}

/// The token kinds accepted where an operand is required.
pub open spec fn operand_expected() -> Seq<char> {
    "Int | Float | Id | LParen | Fn"@
}

/// The actual-kind part of an operand-position error: the kind in quotes.
pub open spec fn quoted_name(v: TokenVariant) -> Seq<char> {
    "'"@ + variant_name(v) + "'"@
}

fn build_quoted_name(v: TokenVariant) -> (r: String)
    ensures
        r@ == quoted_name(v),
{
    let mut s = String::from_str("'");
    s.append(variant_name_str(v));
    s.append("'");
    s
}

/// An `Int` token's digits denote a value an `i64` can hold.
pub open spec fn int_fits(text: Seq<char>, t: Token) -> bool {
    t.variant == TokenVariant::Int ==> digits_val(text, t.from as int, t.to + 1) <= i64::MAX
}

/// A token stream the parser can run on: every token well formed, every
/// integer literal within machine range.
pub open spec fn tokens_ok(text: Seq<char>, toks: Seq<Token>) -> bool {
    tokens_wf(text, toks) && forall|k: int| 0 <= k < toks.len() ==> int_fits(
        text,
        #[trigger] toks[k],
    )
}

/// Every integer literal of the text denotes a value an `i64` can hold.
pub open spec fn all_ints_fit(text: Seq<char>) -> bool {
    forall|k: int| 0 <= k < lex_spec(text, 0).len() ==> int_fits(
        text,
        #[trigger] lex_spec(text, 0)[k],
    )
}

/// Consuming one token of the required kind: the token and the rest of the
/// stream, or the error naming the expected and the actual kinds.
pub open spec fn spec_eat(toks: Seq<Token>, variant: TokenVariant) -> Result<
    (Token, Seq<Token>),
    SpecError,
> {
    if toks.len() == 0 {
        Err(
            SpecError {
                from: 0,
                to: 0,
                message: expected_got(variant_name(variant), "None"@),
            },
        )
    } else if toks[0].variant != variant {
        Err(
            SpecError {
                from: toks[0].from as int,
                to: toks[0].to as int,
                message: expected_got(variant_name(variant), variant_name(toks[0].variant)),
            },
        )
    } else {
        Ok((toks[0], toks.drop_first()))
    }
}

/// The operand rule: a literal or identifier leaf, a parenthesized
/// expression, or `fn name body`; any other token is an error naming the
/// acceptable kinds.
pub open spec fn spec_operand(text: Seq<char>, toks: Seq<Token>) -> Result<
    (SpecExpr, Seq<Token>),
    SpecError,
>
    decreases toks.len(), 0int,
{
    if toks.len() == 0 {
        Err(
            SpecError {
                from: 0,
                to: 0,
                message: expected_got(operand_expected(), "None"@),
            },
        )
    } else {
        let t = toks[0];
        match t.variant {
            TokenVariant::Int => Ok(
                (SpecExpr::Int(digits_val(text, t.from as int, t.to + 1)), toks.drop_first()),
            ),
            TokenVariant::Float => Ok(
                (SpecExpr::Float(text.subrange(t.from as int, t.to + 1)), toks.drop_first()),
            ),
            TokenVariant::Id => Ok(
                (SpecExpr::Id(text.subrange(t.from as int, t.to + 1)), toks.drop_first()),
            ),
            TokenVariant::LParen => match spec_expr(text, toks.drop_first()) {
                Err(e) => Err(e),
                Ok((e, rem)) => if rem.len() >= toks.len() {
                    arbitrary()
                } else {
                    match spec_eat(rem, TokenVariant::RParen) {
                        Err(se) => Err(se),
                        Ok((_, rem2)) => Ok((e, rem2)),
                    }
                },
            },
            TokenVariant::Fn => {
                let rest = toks.drop_first();
                match spec_eat(rest, TokenVariant::Id) {
                    Err(se) => Err(se),
                    Ok((id_tok, rem)) => {
                        let name = SpecExpr::Id(
                            text.subrange(id_tok.from as int, id_tok.to + 1),
                        );
                        match spec_expr(text, rem) {
                            Err(e) => Err(e),
                            Ok((body, rem2)) => Ok(
                                (
                                    SpecExpr::Binary(
                                        BinaryVariant::Fn,
                                        Box::new(name),
                                        Box::new(body),
                                    ),
                                    rem2,
                                ),
                            ),
                        }
                    },
                }
            },
            _ => Err(
                SpecError {
                    from: t.from as int,
                    to: t.to as int,
                    message: expected_got(operand_expected(), quoted_name(t.variant)),
                },
            ),
        }
    }
}

/// The unary layer: the reserved extension point between the multiplicative
/// layer and the operand rule; today a pass-through.
pub open spec fn spec_unary(text: Seq<char>, toks: Seq<Token>) -> Result<
    (SpecExpr, Seq<Token>),
    SpecError,
>
    decreases toks.len(), 1int,
{
    spec_operand(text, toks)
}

/// The multiplicative layer after its first operand: a left-associative
/// chain of `*` and `/`.
pub open spec fn spec_mul_div_more(text: Seq<char>, left: SpecExpr, toks: Seq<Token>) -> Result<
    (SpecExpr, Seq<Token>),
    SpecError,
>
    decreases toks.len(), 2int,
{
    if toks.len() > 0 && (toks[0].variant == TokenVariant::Mul || toks[0].variant
        == TokenVariant::Div) {
        let op = if toks[0].variant == TokenVariant::Mul {
            BinaryVariant::Mul
        } else {
            BinaryVariant::Div
        };
        match spec_unary(text, toks.drop_first()) {
            Err(e) => Err(e),
            Ok((right, rem)) => if rem.len() < toks.len() {
                spec_mul_div_more(
                    text,
                    SpecExpr::Binary(op, Box::new(left), Box::new(right)),
                    rem,
                )
            } else {
                arbitrary()
            },
        }
    } else {
        Ok((left, toks))
    }
}

/// The multiplicative layer: `*` and `/`, left-associative.
pub open spec fn spec_mul_div(text: Seq<char>, toks: Seq<Token>) -> Result<
    (SpecExpr, Seq<Token>),
    SpecError,
>
    decreases toks.len(), 3int,
{
    match spec_unary(text, toks) {
        Err(e) => Err(e),
        Ok((left, rem)) => if rem.len() < toks.len() {
            spec_mul_div_more(text, left, rem)
        } else {
            arbitrary()
        },
    }
}

/// The additive layer after its first operand: a left-associative chain of
/// `+` and `-`.
pub open spec fn spec_add_sub_more(text: Seq<char>, left: SpecExpr, toks: Seq<Token>) -> Result<
    (SpecExpr, Seq<Token>),
    SpecError,
>
    decreases toks.len(), 4int,
{
    if toks.len() > 0 && (toks[0].variant == TokenVariant::Add || toks[0].variant
        == TokenVariant::Sub) {
        let op = if toks[0].variant == TokenVariant::Add {
            BinaryVariant::Add
        } else {
            BinaryVariant::Sub
        };
        match spec_mul_div(text, toks.drop_first()) {
            Err(e) => Err(e),
            Ok((right, rem)) => if rem.len() < toks.len() {
                spec_add_sub_more(
                    text,
                    SpecExpr::Binary(op, Box::new(left), Box::new(right)),
                    rem,
                )
            } else {
                arbitrary()
            },
        }
    } else {
        Ok((left, toks))
    }
}

/// The additive layer: `+` and `-`, left-associative.
pub open spec fn spec_add_sub(text: Seq<char>, toks: Seq<Token>) -> Result<
    (SpecExpr, Seq<Token>),
    SpecError,
>
    decreases toks.len(), 5int,
{
    match spec_mul_div(text, toks) {
        Err(e) => Err(e),
        Ok((left, rem)) => if rem.len() < toks.len() {
            spec_add_sub_more(text, left, rem)
        } else {
            arbitrary()
        },
    }
}

/// The equality layer: at most one `=` between two additive expressions;
/// non-associative, so nothing here consumes a second `=`.
pub open spec fn spec_equality(text: Seq<char>, toks: Seq<Token>) -> Result<
    (SpecExpr, Seq<Token>),
    SpecError,
>
    decreases toks.len(), 6int,
{
    match spec_add_sub(text, toks) {
        Err(e) => Err(e),
        Ok((left, rem)) => if rem.len() > toks.len() {
            arbitrary()
        } else if rem.len() > 0 && rem[0].variant == TokenVariant::Equal {
            match spec_add_sub(text, rem.drop_first()) {
                Err(e) => Err(e),
                Ok((right, rem2)) => Ok(
                    (
                        SpecExpr::Binary(BinaryVariant::Eq, Box::new(left), Box::new(right)),
                        rem2,
                    ),
                ),
            }
        } else {
            Ok((left, rem))
        },
    }
}

/// A whole expression: the weakest layer.
pub open spec fn spec_expr(text: Seq<char>, toks: Seq<Token>) -> Result<
    (SpecExpr, Seq<Token>),
    SpecError,
>
    decreases toks.len(), 7int,
{
    spec_equality(text, toks)
}

/// What parsing a text returns: the tree of its one expression, or the first
/// error. A token left over after the expression is an error at that token.
pub open spec fn spec_parse(text: Seq<char>) -> Result<SpecExpr, SpecError> {
    let toks = lex_spec(text, 0);
    match spec_expr(text, toks) {
        Err(e) => Err(e),
        Ok((e, rem)) => if rem.len() == 0 {
            Ok(e)
        } else {
            Err(
                SpecError {
                    from: rem[0].from as int,
                    to: rem[0].to as int,
                    message: expected_got("end of input"@, variant_name(rem[0].variant)),
                },
            )
        },
    }
}

/// The parser: the original text (for literal slicing), the lexer it pulls
/// from, and the single lookahead token. A fresh lexer/parser pair is needed
/// per parse; neither is reusable after end of input.
pub struct Parser<'text> {
    text: &'text str,
    lexer: Lexer,
    current: Option<Token>,
}

impl<'text> Parser<'text> {
    /// The source text being parsed.
    pub closed spec fn text_spec(&self) -> Seq<char> {
        self.text@
    }

    /// The tokens not yet consumed: the lookahead, then whatever the lexer
    /// has not produced yet.
    pub closed spec fn remaining(&self) -> Seq<Token> {
        match self.current {
            Some(t) => seq![t] + lex_spec(self.text@, self.lexer.pos_spec()),
            None => lex_spec(self.text@, self.lexer.pos_spec()),
        }
    }

    /// The parser and its lexer agree on the text, and the text fits memory.
    pub closed spec fn wf(&self) -> bool {
        self.lexer.wf() && self.text_spec() == self.lexer.text_spec() && self.text_spec().len()
            <= usize::MAX
    }

    /// The lookahead slot is meaningful: it is only empty once the lexer has
    /// reached the end of the text.
    pub closed spec fn primed(&self) -> bool {
        self.current is None ==> self.lexer.pos_spec() == self.text@.len()
    }

    /// A parser as constructed: nothing consumed, no lookahead yet.
    pub closed spec fn fresh(&self) -> bool {
        self.current is None && self.lexer.pos_spec() == 0
    }

    pub fn new(text: &'text str, lexer: Lexer) -> (r: Parser<'text>)
        requires
            lexer.wf(),
            lexer.pos_spec() == 0,
            text@ == lexer.text_spec(),
        ensures
            r.wf(),
            r.fresh(),
            r.text_spec() == text@,
    {
        // the buffer length is an exec usize, so the text length fits one
        let n: usize = lexer.buffer_len();
        Parser { text, lexer, current: None }
    }

    /// Pull the next token from the lexer into the lookahead slot.
    fn step(&mut self)
        requires
            old(self).wf(),
        ensures
            final(self).wf(),
            final(self).primed(),
            final(self).text_spec() == old(self).text_spec(),
            old(self).current is Some ==> final(self).remaining() == old(
                self,
            ).remaining().drop_first(),
            old(self).current is None ==> final(self).remaining() == old(self).remaining(),
    {
        let ghost old_pos = self.lexer.pos_spec();
        let ghost text = self.text@;
        self.current = self.lexer.next();
        proof {
            match next_token_spec(text, old_pos) {
                Some((t, p)) => {
                    assert(lex_spec(text, old_pos) == seq![t] + lex_spec(text, p));
                },
                None => {
                    assert(lex_spec(text, old_pos) =~= Seq::<Token>::empty());
                },
            }
            match old(self).current {
                Some(c) => {
                    assert((seq![c] + lex_spec(text, old_pos)).drop_first() =~= lex_spec(
                        text,
                        old_pos,
                    ));
                },
                None => {},
            }
            match self.current {
                Some(t) => {},
                None => {
                    assert(self.remaining() =~= lex_spec(text, old_pos));
                },
            }
        }
    }

    /// Consume the lookahead, which must have the given kind; otherwise
    /// report what was expected and what stood there, still advancing past
    /// the offending token.
    fn eat(&mut self, variant: TokenVariant) -> (r: Result<Token, Error>)
        requires
            old(self).wf(),
            old(self).primed(),
        ensures
            final(self).wf(),
            final(self).primed(),
            final(self).text_spec() == old(self).text_spec(),
            tokens_ok(old(self).text_spec(), old(self).remaining()) ==> tokens_ok(
                final(self).text_spec(),
                final(self).remaining(),
            ),
            match (r, spec_eat(old(self).remaining(), variant)) {
                (Ok(t), Ok((st, rem))) => t == st && final(self).remaining() == rem,
                (Err(e), Err(se)) => e@ == se,
                _ => false,
            },
    {
        let cur = match self.current {
            Some(t) => t,
            None => {
                proof {
                    assert(self.remaining() =~= Seq::<Token>::empty());
                }
                return Err(
                    Error {
                        from: 0,
                        to: 0,
                        message: build_expected_got(variant_name_str(variant), "None"),
                    },
                );
            },
        };
        self.step();
        if cur.variant != variant {
            return Err(
                Error {
                    from: cur.from,
                    to: cur.to,
                    message: build_expected_got(
                        variant_name_str(variant),
                        variant_name_str(cur.variant),
                    ),
                },
            );
        }
        Ok(cur)
    }

    /// The operand rule: literal and identifier leaves, `( expr )`, and
    /// `fn name body`.
    fn parse_operand(&mut self) -> (r: Result<Expr, Error>)
        requires
            old(self).wf(),
            old(self).primed(),
            tokens_ok(old(self).text_spec(), old(self).remaining()),
        ensures
            final(self).wf(),
            final(self).primed(),
            final(self).text_spec() == old(self).text_spec(),
            tokens_ok(final(self).text_spec(), final(self).remaining()),
            match (r, spec_operand(old(self).text_spec(), old(self).remaining())) {
                (Ok(e), Ok((se, rem))) => e@ == se && final(self).remaining() == rem && final(self).remaining().len() < old(self).remaining().len(),
                (Err(e), Err(se)) => e@ == se,
                _ => false,
            },
        decreases old(self).remaining().len(), 0int,
    {
        let ghost text = self.text@;
        let ghost toks = self.remaining();
        let cur = match self.current {
            Some(t) => t,
            None => {
                proof {
                    assert(self.remaining() =~= Seq::<Token>::empty());
                }
                return Err(
                    Error {
                        from: 0,
                        to: 0,
                        message: build_expected_got("Int | Float | Id | LParen | Fn", "None"),
                    },
                );
            },
        };
        proof {
            assert(toks[0] == cur);
            assert(token_wf(text, toks[0]) && int_fits(text, toks[0]));
            lemma_tokens_ok_drop_first(text, toks);
        }
        match cur.variant {
            TokenVariant::Int => {
                let v = digits_to_i64(self.text, cur.from, cur.to);
                self.step();
                Ok(Expr::Int(v))
            },
            TokenVariant::Float => {
                let s = String::from_str(self.text.substring_char(cur.from, cur.to + 1));
                self.step();
                Ok(Expr::Float(s))
            },
            TokenVariant::Id => {
                let s = String::from_str(self.text.substring_char(cur.from, cur.to + 1));
                self.step();
                Ok(Expr::Id(s))
            },
            TokenVariant::LParen => {
                self.step();
                let e = match self.parse_expr() {
                    Ok(e) => e,
                    Err(err) => {
                        return Err(err);
                    },
                };
                match self.eat(TokenVariant::RParen) {
                    Ok(_) => Ok(e),
                    Err(err) => Err(err),
                }
            },
            TokenVariant::Fn => {
                self.step();
                let id_tok = match self.eat(TokenVariant::Id) {
                    Ok(t) => t,
                    Err(err) => {
                        return Err(err);
                    },
                };
                proof {
                    assert(toks.drop_first()[0] == id_tok);
                    assert(token_wf(text, toks.drop_first()[0]));
                }
                let name = String::from_str(
                    self.text.substring_char(id_tok.from, id_tok.to + 1),
                );
                let body = match self.parse_expr() {
                    Ok(e) => e,
                    Err(err) => {
                        return Err(err);
                    },
                };
                let name_expr = Expr::Id(name);
                proof {
                    assert(name_expr@ == SpecExpr::Id(
                        text.subrange(id_tok.from as int, id_tok.to + 1),
                    ));
                }
                Ok(Expr::Binary(BinaryVariant::Fn, Box::new(name_expr), Box::new(body)))
            },
            _ => {
                let quoted = build_quoted_name(cur.variant);
                let err = Error {
                    from: cur.from,
                    to: cur.to,
                    message: build_expected_got(
                        "Int | Float | Id | LParen | Fn",
                        quoted.as_str(),
                    ),
                };
                self.step();
                Err(err)
            },
        }
    }

    /// The unary layer: the reserved extension point; today a pass-through
    /// to the operand rule.
    fn parse_unary(&mut self) -> (r: Result<Expr, Error>)
        requires
            old(self).wf(),
            old(self).primed(),
            tokens_ok(old(self).text_spec(), old(self).remaining()),
        ensures
            final(self).wf(),
            final(self).primed(),
            final(self).text_spec() == old(self).text_spec(),
            tokens_ok(final(self).text_spec(), final(self).remaining()),
            match (r, spec_unary(old(self).text_spec(), old(self).remaining())) {
                (Ok(e), Ok((se, rem))) => e@ == se && final(self).remaining() == rem && final(self).remaining().len() < old(self).remaining().len(),
                (Err(e), Err(se)) => e@ == se,
                _ => false,
            },
        decreases old(self).remaining().len(), 1int,
    {
        self.parse_operand()
    }

    /// The multiplicative layer: `*` and `/`, left-associative.
    fn parse_mul_div(&mut self) -> (r: Result<Expr, Error>)
        requires
            old(self).wf(),
            old(self).primed(),
            tokens_ok(old(self).text_spec(), old(self).remaining()),
        ensures
            final(self).wf(),
            final(self).primed(),
            final(self).text_spec() == old(self).text_spec(),
            tokens_ok(final(self).text_spec(), final(self).remaining()),
            match (r, spec_mul_div(old(self).text_spec(), old(self).remaining())) {
                (Ok(e), Ok((se, rem))) => e@ == se && final(self).remaining() == rem && final(self).remaining().len() < old(self).remaining().len(),
                (Err(e), Err(se)) => e@ == se,
                _ => false,
            },
        decreases old(self).remaining().len(), 3int,
    {
        let mut left = match self.parse_unary() {
            Ok(e) => e,
            Err(err) => {
                return Err(err);
            },
        };
        loop
            invariant
                self.wf(),
                self.primed(),
                self.text_spec() == old(self).text_spec(),
                tokens_ok(self.text_spec(), self.remaining()),
                self.remaining().len() < old(self).remaining().len(),
                spec_mul_div(old(self).text_spec(), old(self).remaining()) == spec_mul_div_more(
                    old(self).text_spec(),
                    left@,
                    self.remaining(),
                ),
            ensures
                self.remaining().len() == 0 || (self.remaining()[0].variant != TokenVariant::Mul
                    && self.remaining()[0].variant != TokenVariant::Div),
            decreases self.remaining().len(),
        {
            let cur = match self.current {
                Some(t) => t,
                None => {
                    proof {
                        assert(self.remaining() =~= Seq::<Token>::empty());
                    }
                    break ;
                },
            };
            proof {
                assert(self.remaining()[0] == cur);
            }
            if cur.variant != TokenVariant::Mul && cur.variant != TokenVariant::Div {
                break ;
            }
            let op = if cur.variant == TokenVariant::Mul {
                BinaryVariant::Mul
            } else {
                BinaryVariant::Div
            };
            proof {
                lemma_tokens_ok_drop_first(self.text_spec(), self.remaining());
            }
            self.step();
            let right = match self.parse_unary() {
                Ok(e) => e,
                Err(err) => {
                    return Err(err);
                },
            };
            left = Expr::Binary(op, Box::new(left), Box::new(right));
        }
        Ok(left)
    }

    /// The additive layer: `+` and `-`, left-associative.
    fn parse_add_sub(&mut self) -> (r: Result<Expr, Error>)
        requires
            old(self).wf(),
            old(self).primed(),
            tokens_ok(old(self).text_spec(), old(self).remaining()),
        ensures
            final(self).wf(),
            final(self).primed(),
            final(self).text_spec() == old(self).text_spec(),
            tokens_ok(final(self).text_spec(), final(self).remaining()),
            match (r, spec_add_sub(old(self).text_spec(), old(self).remaining())) {
                (Ok(e), Ok((se, rem))) => e@ == se && final(self).remaining() == rem && final(self).remaining().len() < old(self).remaining().len(),
                (Err(e), Err(se)) => e@ == se,
                _ => false,
            },
        decreases old(self).remaining().len(), 5int,
    {
        let mut left = match self.parse_mul_div() {
            Ok(e) => e,
            Err(err) => {
                return Err(err);
            },
        };
        loop
            invariant
                self.wf(),
                self.primed(),
                self.text_spec() == old(self).text_spec(),
                tokens_ok(self.text_spec(), self.remaining()),
                self.remaining().len() < old(self).remaining().len(),
                spec_add_sub(old(self).text_spec(), old(self).remaining()) == spec_add_sub_more(
                    old(self).text_spec(),
                    left@,
                    self.remaining(),
                ),
            ensures
                self.remaining().len() == 0 || (self.remaining()[0].variant != TokenVariant::Add
                    && self.remaining()[0].variant != TokenVariant::Sub),
            decreases self.remaining().len(),
        {
            let cur = match self.current {
                Some(t) => t,
                None => {
                    proof {
                        assert(self.remaining() =~= Seq::<Token>::empty());
                    }
                    break ;
                },
            };
            proof {
                assert(self.remaining()[0] == cur);
            }
            if cur.variant != TokenVariant::Add && cur.variant != TokenVariant::Sub {
                break ;
            }
            let op = if cur.variant == TokenVariant::Add {
                BinaryVariant::Add
            } else {
                BinaryVariant::Sub
            };
            proof {
                lemma_tokens_ok_drop_first(self.text_spec(), self.remaining());
            }
            self.step();
            let right = match self.parse_mul_div() {
                Ok(e) => e,
                Err(err) => {
                    return Err(err);
                },
            };
            left = Expr::Binary(op, Box::new(left), Box::new(right));
        }
        Ok(left)
    }

    /// The equality layer: at most one `=`; non-associative.
    fn parse_equality(&mut self) -> (r: Result<Expr, Error>)
        requires
            old(self).wf(),
            old(self).primed(),
            tokens_ok(old(self).text_spec(), old(self).remaining()),
        ensures
            final(self).wf(),
            final(self).primed(),
            final(self).text_spec() == old(self).text_spec(),
            tokens_ok(final(self).text_spec(), final(self).remaining()),
            match (r, spec_equality(old(self).text_spec(), old(self).remaining())) {
                (Ok(e), Ok((se, rem))) => e@ == se && final(self).remaining() == rem && final(self).remaining().len() < old(self).remaining().len(),
                (Err(e), Err(se)) => e@ == se,
                _ => false,
            },
        decreases old(self).remaining().len(), 6int,
    {
        let left = match self.parse_add_sub() {
            Ok(e) => e,
            Err(err) => {
                return Err(err);
            },
        };
        let cur = match self.current {
            Some(t) => t,
            None => {
                proof {
                    assert(self.remaining() =~= Seq::<Token>::empty());
                }
                return Ok(left);
            },
        };
        proof {
            assert(self.remaining()[0] == cur);
        }
        if cur.variant == TokenVariant::Equal {
            proof {
                lemma_tokens_ok_drop_first(self.text_spec(), self.remaining());
            }
            self.step();
            let right = match self.parse_add_sub() {
                Ok(e) => e,
                Err(err) => {
                    return Err(err);
                },
            };
            Ok(Expr::Binary(BinaryVariant::Eq, Box::new(left), Box::new(right)))
        } else {
            Ok(left)
        }
    }

    /// A whole expression: the weakest layer.
    fn parse_expr(&mut self) -> (r: Result<Expr, Error>)
        requires
            old(self).wf(),
            old(self).primed(),
            tokens_ok(old(self).text_spec(), old(self).remaining()),
        ensures
            final(self).wf(),
            final(self).primed(),
            final(self).text_spec() == old(self).text_spec(),
            tokens_ok(final(self).text_spec(), final(self).remaining()),
            match (r, spec_expr(old(self).text_spec(), old(self).remaining())) {
                (Ok(e), Ok((se, rem))) => e@ == se && final(self).remaining() == rem && final(self).remaining().len() < old(self).remaining().len(),
                (Err(e), Err(se)) => e@ == se,
                _ => false,
            },
        decreases old(self).remaining().len(), 7int,
    {
        self.parse_equality()
    }

    /// Parse the whole text as one expression. Returns the tree, or the
    /// first error met, with its span; a token left over after the
    /// expression is an error at that token. Single-shot: construct a fresh
    /// lexer/parser pair per input.
    pub fn parse(&mut self) -> (r: Result<Expr, Error>)
        requires
            old(self).wf(),
            old(self).fresh(),
            all_ints_fit(old(self).text_spec()),
        ensures
            match (r, spec_parse(old(self).text_spec())) {
                (Ok(e), Ok(se)) => e@ == se,
                (Err(e), Err(se)) => e@ == se,
                _ => false,
            },
    {
        let ghost text = self.text@;
        proof {
            crate::lexer::lemma_token_stream_wf(text, 0);
        }
        self.step();
        let e = match self.parse_expr() {
            Ok(e) => e,
            Err(err) => {
                return Err(err);
            },
        };
        match self.current {
            None => Ok(e),
            Some(t) => {
                proof {
                    assert(self.remaining()[0] == t);
                }
                Err(
                    Error {
                        from: t.from,
                        to: t.to,
                        message: build_expected_got("end of input", variant_name_str(t.variant)),
                    },
                )
            },
        }
    }
}

proof fn lemma_tokens_ok_drop_first(text: Seq<char>, toks: Seq<Token>)
    requires
        toks.len() > 0,
        tokens_ok(text, toks),
    ensures
        tokens_ok(text, toks.drop_first()),
{
    assert forall|k: int| 0 <= k < toks.drop_first().len() implies token_wf(
        text,
        #[trigger] toks.drop_first()[k],
    ) by {
        assert(toks.drop_first()[k] == toks[k + 1]);
        assert(token_wf(text, toks[k + 1]));
    }
    assert forall|k: int| 0 <= k < toks.drop_first().len() implies int_fits(
        text,
        #[trigger] toks.drop_first()[k],
    ) by {
        assert(toks.drop_first()[k] == toks[k + 1]);
        assert(int_fits(text, toks[k + 1]));
    }
}

} // verus!
