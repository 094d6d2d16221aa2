use exprlang::lexer::{Lexer, Token, TokenVariant};

fn collect_tokens(text: &str) -> Vec<Token> {
    let mut lexer = Lexer::new(text.chars().collect::<Vec<_>>());
    let mut tokens = Vec::new();
    while let Some(token) = lexer.next() {
        tokens.push(token);
    }
    tokens
}

struct TokenFactory {
    index: usize,
}

impl TokenFactory {
    pub fn new() -> Self {
        Self { index: 0 }
    }

    pub fn skip(&mut self, text: &str) -> Option<Token> {
        for c in text.chars() {
            self.make(&c.to_string(), TokenVariant::Fn);
        }
        None
    }

    pub fn make(&mut self, text: &str, variant: TokenVariant) -> Option<Token> {
        let token = Token {
            variant,
            from: self.index,
            to: self.index + text.len() - 1,
        };
        self.index += text.len();
        Some(token)
    }
}

#[test]
fn does_not_crash_and_burn() {
    let text = "ABC_1+-*/^()==>123 123.4fn";
    let given_tokens = collect_tokens(text);
    let mut factory = TokenFactory::new();
    let expected_tokens: Vec<_> = vec![
        factory.make("ABC_1", TokenVariant::Id),
        factory.make("+", TokenVariant::Add),
        factory.make("-", TokenVariant::Sub),
        factory.make("*", TokenVariant::Mul),
        factory.make("/", TokenVariant::Div),
        factory.make("^", TokenVariant::Pow),
        factory.make("(", TokenVariant::LParen),
        factory.make(")", TokenVariant::RParen),
        factory.make("=", TokenVariant::Equal),
        factory.make("=>", TokenVariant::Arrow),
        factory.make("123", TokenVariant::Int),
        factory.skip(" "),
        factory.make("123.4", TokenVariant::Float),
        factory.make("fn", TokenVariant::Fn),
    ]
    .into_iter()
    .filter_map(std::convert::identity)
    .collect();

    assert_eq!(given_tokens, expected_tokens)
}

#[test]
fn whitespace_only_yields_no_tokens() {
    assert_eq!(collect_tokens("  \t\n "), Vec::new());
    assert_eq!(collect_tokens(""), Vec::new());
}

#[test]
fn unrecognized_character_is_invalid() {
    let tokens = collect_tokens("#");
    assert_eq!(
        tokens,
        vec![Token { from: 0, to: 0, variant: TokenVariant::Invalid }]
    );
}

#[test]
fn second_dot_ends_literal_as_invalid() {
    let tokens = collect_tokens("1.2.3");
    assert_eq!(
        tokens,
        vec![
            Token { from: 0, to: 3, variant: TokenVariant::Invalid },
            Token { from: 4, to: 4, variant: TokenVariant::Int },
        ]
    );
}

#[test]
fn spans_do_not_overlap() {
    for text in ["1.2.3", "a b c", "1+2", ".5.6.7", "fn fnx _1 ==>="] {
        let tokens = collect_tokens(text);
        for pair in tokens.windows(2) {
            assert!(pair[0].to < pair[1].from);
        }
        for t in &tokens {
            assert!(t.from <= t.to && t.to < text.chars().count());
        }
    }
}

#[test]
fn keyword_fn_versus_identifiers() {
    assert_eq!(
        collect_tokens("fn"),
        vec![Token { from: 0, to: 1, variant: TokenVariant::Fn }]
    );
    assert_eq!(
        collect_tokens("fnx"),
        vec![Token { from: 0, to: 2, variant: TokenVariant::Id }]
    );
    assert_eq!(
        collect_tokens("_a1"),
        vec![Token { from: 0, to: 2, variant: TokenVariant::Id }]
    );
}

#[test]
fn equal_and_arrow() {
    assert_eq!(
        collect_tokens("=="),
        vec![
            Token { from: 0, to: 0, variant: TokenVariant::Equal },
            Token { from: 1, to: 1, variant: TokenVariant::Equal },
        ]
    );
    assert_eq!(
        collect_tokens("=>="),
        vec![
            Token { from: 0, to: 1, variant: TokenVariant::Arrow },
            Token { from: 2, to: 2, variant: TokenVariant::Equal },
        ]
    );
}

#[test]
fn dot_leading_float() {
    assert_eq!(
        collect_tokens(".5"),
        vec![Token { from: 0, to: 1, variant: TokenVariant::Float }]
    );
    assert_eq!(
        collect_tokens("123."),
        vec![Token { from: 0, to: 3, variant: TokenVariant::Float }]
    );
}
