//! Lexical scanner: turns a character buffer into a stream of positioned
//! tokens, pulled one at a time. Scanning never fails; unrecognized input
//! becomes an `Invalid` token and rejection is left to the parser.

use vstd::prelude::*;

verus! {

/// The classification of a token.
#[derive(PartialEq, Eq, Structural, Debug, Clone, Copy)]
pub enum TokenVariant {
    Add,
    Sub,
    Mul,
    Div,
    Pow,
    Equal,
    Int,
    Arrow,
    Float,
    Id,
    RParen,
    LParen,
    Fn,
    Invalid,
}

/// A classified, span-tagged substring of the source text. `from` and `to`
/// are inclusive character indices into the source buffer.
#[derive(PartialEq, Eq, Structural, Debug, Clone, Copy)]
pub struct Token {
    pub from: usize,
    pub to: usize,
    pub variant: TokenVariant,
}

/// A decimal digit.
pub open spec fn is_digit(c: char) -> bool {
    48 <= c as u32 && c as u32 <= 57
}

/// A character that may open an identifier: a letter or an underscore.
pub open spec fn is_ident_start(c: char) -> bool {
    (65 <= c as u32 && c as u32 <= 90)  // 'A'..='Z'
    || (97 <= c as u32 && c as u32 <= 122)  // 'a'..='z'
    || c == '_'
}

/// A character that may continue an identifier.
pub open spec fn is_ident_char(c: char) -> bool {
    is_ident_start(c) || is_digit(c)
}

/// The characters with the Unicode `White_Space` property, the set that
/// `char::is_whitespace` accepts.
pub open spec fn is_whitespace(c: char) -> bool {
    c == '\u{0009}' || c == '\u{000A}' || c == '\u{000B}' || c == '\u{000C}'
    || c == '\u{000D}' || c == '\u{0020}' || c == '\u{0085}' || c == '\u{00A0}'
    || c == '\u{1680}'
    || (0x2000 <= c as u32 && c as u32 <= 0x200A)
    || c == '\u{2028}' || c == '\u{2029}' || c == '\u{202F}' || c == '\u{205F}'
    || c == '\u{3000}'
}

fn digit(c: char) -> (r: bool)
    ensures
        r == is_digit(c),
{
    let u = c as u32;
    48 <= u && u <= 57
}

fn ident_start(c: char) -> (r: bool)
    ensures
        r == is_ident_start(c),
{
    let u = c as u32;
    (65 <= u && u <= 90) || (97 <= u && u <= 122) || c == '_'
}

fn ident_char(c: char) -> (r: bool)
    ensures
        r == is_ident_char(c),
{
    ident_start(c) || digit(c)
}

fn whitespace(c: char) -> (r: bool)
    ensures
        r == is_whitespace(c),
{
    let u = c as u32;
    u == 0x0009 || u == 0x000A || u == 0x000B || u == 0x000C || u == 0x000D
        || u == 0x0020 || u == 0x0085 || u == 0x00A0 || u == 0x1680
        || (0x2000 <= u && u <= 0x200A) || u == 0x2028 || u == 0x2029
        || u == 0x202F || u == 0x205F || u == 0x3000
}

/// The token made of the single character at `at`.
pub open spec fn single_token(at: nat, variant: TokenVariant) -> Token {
    Token { from: at as usize, to: at as usize, variant }
}

/// The rest of a numeric literal that started at `from`, scanned from
/// position `i` on: digits are consumed; a first `.` turns the literal into a
/// float; a second `.` ends it as `Invalid`, spanning up to and including
/// that `.`. Returns the token and the position after it.
pub open spec fn scan_number(text: Seq<char>, from: nat, i: nat, seen_dot: bool) -> (Token, nat)
    decreases text.len() - i,
{
    if i < text.len() && is_digit(text[i as int]) {
        scan_number(text, from, i + 1, seen_dot)
    } else if i < text.len() && text[i as int] == '.' {
        if seen_dot {
            (Token { from: from as usize, to: i as usize, variant: TokenVariant::Invalid }, i + 1)
        } else {
            scan_number(text, from, i + 1, true)
        }
    } else {
        let variant = if seen_dot {
            TokenVariant::Float
        } else {
            TokenVariant::Int
        };
        (Token { from: from as usize, to: (i - 1) as usize, variant }, i)
    }
}

/// The rest of an identifier that started at `from`, scanned from position
/// `i` on: letters, digits and underscores are consumed; the exact text
/// `fn` is the keyword token. Returns the token and the position after it.
pub open spec fn scan_ident(text: Seq<char>, from: nat, i: nat) -> (Token, nat)
    decreases text.len() - i,
{
    if i < text.len() && is_ident_char(text[i as int]) {
        scan_ident(text, from, i + 1)
    } else {
        let variant = if i - from == 2 && text[from as int] == 'f' && text[from as int + 1]
            == 'n' {
            TokenVariant::Fn
        } else {
            TokenVariant::Id
        };
        (Token { from: from as usize, to: (i - 1) as usize, variant }, i)
    }
}

/// The next token of `text` at or after `pos`, with the position after it,
/// or `None` when only whitespace is left. This is the whole lexical rule:
/// scanning never fails.
pub open spec fn next_token_spec(text: Seq<char>, pos: nat) -> Option<(Token, nat)>
    decreases text.len() - pos,
{
    if pos >= text.len() {
        None
    } else {
        let c = text[pos as int];
        if is_digit(c) {
            Some(scan_number(text, pos, pos + 1, false))
        } else if c == '.' {
            Some(scan_number(text, pos, pos + 1, true))
        } else if is_ident_start(c) {
            Some(scan_ident(text, pos, pos + 1))
        } else if c == '+' {
            Some((single_token(pos, TokenVariant::Add), pos + 1))
        } else if c == '-' {
            Some((single_token(pos, TokenVariant::Sub), pos + 1))
        } else if c == '^' {
            Some((single_token(pos, TokenVariant::Pow), pos + 1))
        } else if c == '*' {
            Some((single_token(pos, TokenVariant::Mul), pos + 1))
        } else if c == '/' {
            Some((single_token(pos, TokenVariant::Div), pos + 1))
        } else if c == '(' {
            Some((single_token(pos, TokenVariant::LParen), pos + 1))
        } else if c == ')' {
            Some((single_token(pos, TokenVariant::RParen), pos + 1))
        } else if c == '=' {
            if pos + 1 < text.len() && text[pos as int + 1] == '>' {
                Some(
                    (
                        Token {
                            from: pos as usize,
                            to: (pos + 1) as usize,
                            variant: TokenVariant::Arrow,
                        },
                        pos + 2,
                    ),
                )
            } else {
                Some((single_token(pos, TokenVariant::Equal), pos + 1))
            }
        } else if is_whitespace(c) {
            next_token_spec(text, pos + 1)
        } else {
            Some((single_token(pos, TokenVariant::Invalid), pos + 1))
        }
    }
}

/// The number of `.` characters of `text` in the index range `[lo, hi)`.
pub open spec fn dot_count(text: Seq<char>, lo: int, hi: int) -> nat
    decreases hi - lo,
{
    if lo >= hi {
        0
    } else {
        dot_count(text, lo, hi - 1) + if text[hi - 1] == '.' {
            1nat
        } else {
            0nat
        }
    }
}

/// The characters under a token's span obey the rule that produced its kind:
/// an `Int` is all digits, a `Float` has exactly one `.`, an identifier is
/// made of identifier characters and is not the keyword `fn`, an operator is
/// its own character.
pub open spec fn token_matches_rule(text: Seq<char>, t: Token) -> bool {
    match t.variant {
        TokenVariant::Int => dot_count(text, t.from as int, t.to + 1) == 0 && forall|j: int|
            t.from <= j <= t.to ==> is_digit(text[j]),
        TokenVariant::Float => dot_count(text, t.from as int, t.to + 1) == 1 && forall|j: int|
            t.from <= j <= t.to ==> is_digit(text[j]) || text[j] == '.',
        TokenVariant::Id => is_ident_start(text[t.from as int]) && (forall|j: int|
            t.from <= j <= t.to ==> is_ident_char(text[j])) && !(t.to == t.from + 1
            && text[t.from as int] == 'f' && text[t.to as int] == 'n'),
        TokenVariant::Fn => t.to == t.from + 1 && text[t.from as int] == 'f' && text[
            t.to as int
        ] == 'n',
        TokenVariant::Add => t.to == t.from && text[t.from as int] == '+',
        TokenVariant::Sub => t.to == t.from && text[t.from as int] == '-',
        TokenVariant::Mul => t.to == t.from && text[t.from as int] == '*',
        TokenVariant::Div => t.to == t.from && text[t.from as int] == '/',
        TokenVariant::Pow => t.to == t.from && text[t.from as int] == '^',
        TokenVariant::Equal => t.to == t.from && text[t.from as int] == '=',
        TokenVariant::LParen => t.to == t.from && text[t.from as int] == '(',
        TokenVariant::RParen => t.to == t.from && text[t.from as int] == ')',
        TokenVariant::Arrow => t.to == t.from + 1 && text[t.from as int] == '=' && text[
            t.to as int
        ] == '>',
        TokenVariant::Invalid => true,
    }
}

/// A token whose span lies inside the text and whose characters obey its rule.
pub open spec fn token_wf(text: Seq<char>, t: Token) -> bool {
    t.from <= t.to < text.len() && token_matches_rule(text, t)
}

proof fn lemma_dot_count_zero(text: Seq<char>, lo: int, hi: int)
    requires
        dot_count(text, lo, hi) == 0,
    ensures
        forall|j: int| lo <= j < hi ==> text[j] != '.',
    decreases hi - lo,
{
    if lo < hi {
        lemma_dot_count_zero(text, lo, hi - 1);
    }
}

proof fn lemma_scan_number_props(text: Seq<char>, from: nat, i: nat, seen_dot: bool)
    requires
        text.len() <= usize::MAX,
        from < i <= text.len(),
        forall|j: int| from <= j < i ==> is_digit(text[j]) || text[j] == '.',
        dot_count(text, from as int, i as int) == if seen_dot {
            1int
        } else {
            0int
        },
    ensures
        ({
            let (t, p) = scan_number(text, from, i, seen_dot);
            t.from == from && from <= t.to < text.len() && p == t.to + 1 && p <= text.len()
                && token_matches_rule(text, t) && (t.variant == TokenVariant::Int || t.variant
                == TokenVariant::Float || t.variant == TokenVariant::Invalid)
        }),
    decreases text.len() - i,
{
    if i < text.len() && is_digit(text[i as int]) {
        lemma_scan_number_props(text, from, i + 1, seen_dot);
    } else if i < text.len() && text[i as int] == '.' {
        if !seen_dot {
            lemma_scan_number_props(text, from, i + 1, true);
        }
    } else {
        if !seen_dot {
            lemma_dot_count_zero(text, from as int, i as int);
        }
    }
}

proof fn lemma_scan_ident_props(text: Seq<char>, from: nat, i: nat)
    requires
        text.len() <= usize::MAX,
        from < i <= text.len(),
        forall|j: int| from <= j < i ==> is_ident_char(text[j]),
        is_ident_start(text[from as int]),
    ensures
        ({
            let (t, p) = scan_ident(text, from, i);
            t.from == from && from <= t.to < text.len() && p == t.to + 1 && p <= text.len()
                && token_matches_rule(text, t) && (t.variant == TokenVariant::Id || t.variant
                == TokenVariant::Fn)
        }),
    decreases text.len() - i,
{
    if i < text.len() && is_ident_char(text[i as int]) {
        lemma_scan_ident_props(text, from, i + 1);
    }
}

/// The next token, when there is one, lies at or after `pos`, inside the
/// text, obeys the rule for its kind, and the scanner resumes right after it.
pub proof fn lemma_next_token_wf(text: Seq<char>, pos: nat)
    requires
        text.len() <= usize::MAX,
        pos <= text.len(),
    ensures
        match next_token_spec(text, pos) {
            Some((t, p)) => pos <= t.from && token_wf(text, t) && p == t.to + 1 && p <= text.len(),
            None => true,
        },
    decreases text.len() - pos,
{
    if pos < text.len() {
        let c = text[pos as int];
        assert(dot_count(text, pos as int, pos as int) == 0);
        if is_digit(c) {
            lemma_scan_number_props(text, pos, pos + 1, false);
        } else if c == '.' {
            lemma_scan_number_props(text, pos, pos + 1, true);
        } else if is_ident_start(c) {
            lemma_scan_ident_props(text, pos, pos + 1);
        } else if is_whitespace(c) && !(c == '+' || c == '-' || c == '^' || c == '*' || c == '/'
            || c == '(' || c == ')' || c == '=') {
            lemma_next_token_wf(text, pos + 1);
        }
    }
}

proof fn lemma_scan_number_pos(text: Seq<char>, from: nat, i: nat, seen_dot: bool)
    requires
        i <= text.len(),
    ensures
        i <= scan_number(text, from, i, seen_dot).1 <= text.len(),
    decreases text.len() - i,
{
    if i < text.len() && is_digit(text[i as int]) {
        lemma_scan_number_pos(text, from, i + 1, seen_dot);
    } else if i < text.len() && text[i as int] == '.' && !seen_dot {
        lemma_scan_number_pos(text, from, i + 1, true);
    }
}

proof fn lemma_scan_ident_pos(text: Seq<char>, from: nat, i: nat)
    requires
        i <= text.len(),
    ensures
        i <= scan_ident(text, from, i).1 <= text.len(),
    decreases text.len() - i,
{
    if i < text.len() && is_ident_char(text[i as int]) {
        lemma_scan_ident_pos(text, from, i + 1);
    }
}

/// When there is a next token, the scanner strictly advances and stays
/// inside the text.
pub proof fn lemma_next_token_pos(text: Seq<char>, pos: nat)
    requires
        pos <= text.len(),
    ensures
        match next_token_spec(text, pos) {
            Some((t, p)) => pos < p <= text.len(),
            None => true,
        },
    decreases text.len() - pos,
{
    if pos < text.len() {
        let c = text[pos as int];
        if is_digit(c) {
            lemma_scan_number_pos(text, pos, pos + 1, false);
        } else if c == '.' {
            lemma_scan_number_pos(text, pos, pos + 1, true);
        } else if is_ident_start(c) {
            lemma_scan_ident_pos(text, pos, pos + 1);
        } else if is_whitespace(c) && !(c == '+' || c == '-' || c == '^' || c == '*' || c == '/'
            || c == '(' || c == ')' || c == '=') {
            lemma_next_token_pos(text, pos + 1);
        }
    }
}

/// The whole token stream of `text` from position `pos` on.
pub open spec fn lex_spec(text: Seq<char>, pos: nat) -> Seq<Token>
    decreases text.len() - pos,
    when pos <= text.len()
    via lex_spec_dec
{
    match next_token_spec(text, pos) {
        None => Seq::empty(),
        Some((t, p)) => seq![t] + lex_spec(text, p),
    }
}

#[via_fn]
proof fn lex_spec_dec(text: Seq<char>, pos: nat) {
    lemma_next_token_pos(text, pos);
}

/// Every token of a stream obeys the rule for its kind.
pub open spec fn tokens_wf(text: Seq<char>, toks: Seq<Token>) -> bool {
    forall|k: int| 0 <= k < toks.len() ==> token_wf(text, #[trigger] toks[k])
}

/// Successive spans never overlap: each token ends before the next begins.
pub open spec fn tokens_ordered(toks: Seq<Token>) -> bool {
    forall|k: int| 0 <= k && k + 1 < toks.len() ==> #[trigger] toks[k].to < toks[k + 1].from
}

/// Every token of a stream begins at or after `pos`.
pub open spec fn tokens_start_at(toks: Seq<Token>, pos: nat) -> bool {
    forall|k: int| 0 <= k < toks.len() ==> pos <= #[trigger] toks[k].from
}

/// The token stream of any text is well formed: spans lie inside the text in
/// strictly increasing, non-overlapping order, and the characters under each
/// span obey the rule that produced the token's kind.
pub proof fn lemma_token_stream_wf(text: Seq<char>, pos: nat)
    requires
        text.len() <= usize::MAX,
        pos <= text.len(),
    ensures
        tokens_wf(text, lex_spec(text, pos)),
        tokens_ordered(lex_spec(text, pos)),
        tokens_start_at(lex_spec(text, pos), pos),
    decreases text.len() - pos,
{
    lemma_next_token_wf(text, pos);
    match next_token_spec(text, pos) {
        None => {},
        Some((t, p)) => {
            lemma_token_stream_wf(text, p);
            let toks = lex_spec(text, pos);
            let rest = lex_spec(text, p);
            assert forall|k: int| 0 <= k < toks.len() implies token_wf(text, #[trigger] toks[k])
                && pos <= toks[k].from by {
                if k > 0 {
                    assert(toks[k] == rest[k - 1]);
                }
            }
            assert forall|k: int| 0 <= k && k + 1 < toks.len() implies #[trigger] toks[k].to
                < toks[k + 1].from by {
                if k > 0 {
                    assert(toks[k] == rest[k - 1]);
                }
                assert(toks[k + 1] == rest[k]);
            }
        },
    }
}

/// A pull-based scanner over a finite character buffer. A fresh instance is
/// needed to re-scan: the cursor only moves forward.
pub struct Lexer {
    text: Vec<char>,
    position: usize,
}

impl Lexer {
    /// The character buffer being scanned.
    pub closed spec fn text_spec(&self) -> Seq<char> {
        self.text@
    }

    /// The cursor: the index of the next character to examine.
    pub closed spec fn pos_spec(&self) -> nat {
        self.position as nat
    }

    /// The cursor never runs past the end of the buffer.
    pub open spec fn wf(&self) -> bool {
        self.pos_spec() <= self.text_spec().len()
    }

    pub fn new(text: Vec<char>) -> (r: Self)
        ensures
            r.wf(),
            r.text_spec() == text@,
            r.pos_spec() == 0,
    {
        Self { text, position: 0 }
    }

    /// How many characters the buffer holds.
    pub fn buffer_len(&self) -> (n: usize)
        ensures
            n == self.text_spec().len(),
    {
        self.text.len()
    }

    fn current(&self) -> (r: Option<char>)
        requires
            self.wf(),
        ensures
            self.pos_spec() < self.text_spec().len() ==> r == Some(
                self.text_spec()[self.pos_spec() as int],
            ),
            self.pos_spec() >= self.text_spec().len() ==> r is None,
    {
        if self.position < self.text.len() {
            Some(self.text[self.position])
        } else {
            None
        }
    }

    fn step(&mut self)
        requires
            old(self).wf(),
            old(self).pos_spec() < old(self).text_spec().len(),
        ensures
            final(self).wf(),
            final(self).text_spec() == old(self).text_spec(),
            final(self).pos_spec() == old(self).pos_spec() + 1,
    {
        // the buffer length is an exec usize, so the cursor below it fits one
        let n: usize = self.text.len();
        self.position += 1;
    }

    fn make_number(&mut self) -> (r: Option<Token>)
        requires
            old(self).wf(),
            old(self).pos_spec() < old(self).text_spec().len(),
            is_digit(old(self).text_spec()[old(self).pos_spec() as int]) || old(
                self,
            ).text_spec()[old(self).pos_spec() as int] == '.',
        ensures
            final(self).wf(),
            final(self).text_spec() == old(self).text_spec(),
            ({
                let (t, p) = scan_number(
                    old(self).text_spec(),
                    old(self).pos_spec(),
                    old(self).pos_spec() + 1,
                    old(self).text_spec()[old(self).pos_spec() as int] == '.',
                );
                r == Some(t) && final(self).pos_spec() == p
            }),
    {
        let ghost text = self.text@;
        let from = self.position;
        let first = self.text[self.position];
        let mut seen_dot = first == '.';
        self.step();
        loop
            invariant
                self.wf(),
                self.text@ == text,
                text == old(self).text_spec(),
                from as nat == old(self).pos_spec(),
                from < self.position,
                scan_number(text, from as nat, self.position as nat, seen_dot) == scan_number(
                    text,
                    from as nat,
                    from as nat + 1,
                    text[from as int] == '.',
                ),
            ensures
                self.position >= text.len() || (!is_digit(text[self.position as int])
                    && text[self.position as int] != '.'),
            decreases text.len() - self.position,
        {
            if self.position < self.text.len() {
                let c = self.text[self.position];
                if digit(c) {
                    self.step();
                } else if c == '.' {
                    if seen_dot {
                        let t = Token {
                            from,
                            to: self.position,
                            variant: TokenVariant::Invalid,
                        };
                        self.step();
                        return Some(t);
                    }
                    seen_dot = true;
                    self.step();
                } else {
                    break ;
                }
            } else {
                break ;
            }
        }
        let variant = if seen_dot {
            TokenVariant::Float
        } else {
            TokenVariant::Int
        };
        Some(Token { from, to: self.position - 1, variant })
    }

    fn make_identifier(&mut self) -> (r: Option<Token>)
        requires
            old(self).wf(),
            old(self).pos_spec() < old(self).text_spec().len(),
            is_ident_start(old(self).text_spec()[old(self).pos_spec() as int]),
        ensures
            final(self).wf(),
            final(self).text_spec() == old(self).text_spec(),
            ({
                let (t, p) = scan_ident(
                    old(self).text_spec(),
                    old(self).pos_spec(),
                    old(self).pos_spec() + 1,
                );
                r == Some(t) && final(self).pos_spec() == p
            }),
    {
        let ghost text = self.text@;
        let from = self.position;
        self.step();
        loop
            invariant
                self.wf(),
                self.text@ == text,
                text == old(self).text_spec(),
                from as nat == old(self).pos_spec(),
                from < self.position,
                scan_ident(text, from as nat, self.position as nat) == scan_ident(
                    text,
                    from as nat,
                    from as nat + 1,
                ),
            ensures
                self.position >= text.len() || !is_ident_char(text[self.position as int]),
            decreases text.len() - self.position,
        {
            if self.position < self.text.len() {
                let c = self.text[self.position];
                if ident_char(c) {
                    self.step();
                } else {
                    break ;
                }
            } else {
                break ;
            }
        }
        let to = self.position - 1;
        let variant = if to - from == 1 && self.text[from] == 'f' && self.text[to] == 'n' {
            TokenVariant::Fn
        } else {
            TokenVariant::Id
        };
        Some(Token { from, to, variant })
    }

    fn make_single(&mut self, variant: TokenVariant) -> (r: Token)
        requires
            old(self).wf(),
            old(self).pos_spec() < old(self).text_spec().len(),
        ensures
            final(self).wf(),
            final(self).text_spec() == old(self).text_spec(),
            r == single_token(old(self).pos_spec(), variant),
            final(self).pos_spec() == old(self).pos_spec() + 1,
    {
        let from = self.position;
        let to = self.position;
        self.step();
        Token { from, to, variant }
    }

    fn make_double(
        &mut self,
        double_character: char,
        single_variant: TokenVariant,
        double_variant: TokenVariant,
    ) -> (r: Token)
        requires
            old(self).wf(),
            old(self).pos_spec() < old(self).text_spec().len(),
        ensures
            final(self).wf(),
            final(self).text_spec() == old(self).text_spec(),
            ({
                let text = old(self).text_spec();
                let pos = old(self).pos_spec();
                if pos + 1 < text.len() && text[pos as int + 1] == double_character {
                    r == (Token {
                        from: pos as usize,
                        to: (pos + 1) as usize,
                        variant: double_variant,
                    }) && final(self).pos_spec() == pos + 2
                } else {
                    r == single_token(pos, single_variant) && final(self).pos_spec() == pos + 1
                }
            }),
    {
        let from = self.position;
        let mut to = self.position;
        let mut variant = single_variant;
        self.step();
        match self.current() {
            Some(c) => {
                if c == double_character {
                    to = self.position;
                    variant = double_variant;
                    self.step();
                }
            },
            None => {},
        }
        Token { from, to, variant }
    }

    fn make_token(&mut self) -> (r: Option<Token>)
        requires
            old(self).wf(),
        ensures
            final(self).wf(),
            final(self).text_spec() == old(self).text_spec(),
            ({
                match next_token_spec(old(self).text_spec(), old(self).pos_spec()) {
                    Some((t, p)) => r == Some(t) && final(self).pos_spec() == p,
                    None => r is None && final(self).pos_spec() == final(self).text_spec().len(),
                }
            }),
        decreases old(self).text_spec().len() - old(self).pos_spec(),
    {
        let c = match self.current() {
            Some(c) => c,
            None => {
                return None;
            },
        };
        if digit(c) || c == '.' {
            self.make_number()
        } else if ident_start(c) {
            self.make_identifier()
        } else if c == '+' {
            Some(self.make_single(TokenVariant::Add))
        } else if c == '-' {
            Some(self.make_single(TokenVariant::Sub))
        } else if c == '^' {
            Some(self.make_single(TokenVariant::Pow))
        } else if c == '*' {
            Some(self.make_single(TokenVariant::Mul))
        } else if c == '=' {
            Some(self.make_double('>', TokenVariant::Equal, TokenVariant::Arrow))
        } else if c == '/' {
            Some(self.make_single(TokenVariant::Div))
        } else if c == '(' {
            Some(self.make_single(TokenVariant::LParen))
        } else if c == ')' {
            Some(self.make_single(TokenVariant::RParen))
        } else if whitespace(c) {
            self.step();
            self.make_token()
        } else {
            Some(self.make_single(TokenVariant::Invalid))
        }
    }

    /// Produce the next token, or `None` at end of input. Never fails:
    /// unrecognized characters come back as `Invalid` tokens.
    pub fn next(&mut self) -> (r: Option<Token>)
        requires
            old(self).wf(),
        ensures
            final(self).wf(),
            final(self).text_spec() == old(self).text_spec(),
            ({
                match next_token_spec(old(self).text_spec(), old(self).pos_spec()) {
                    Some((t, p)) => r == Some(t) && final(self).pos_spec() == p,
                    None => r is None && final(self).pos_spec() == final(self).text_spec().len(),
                }
            }),
    {
        self.make_token()
    }
}

} // verus!
