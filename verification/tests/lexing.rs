use fractal::error::Error;
use fractal::lex::{tokenize, Literal, Token, TokenKind};

fn number(literal: &Literal) -> f64 {
    String::from_utf8(literal.text.clone()).unwrap().parse::<f64>().unwrap()
}

fn kinds(input: &str) -> Vec<TokenKind> {
    tokenize(input).unwrap().into_iter().map(|token| token.kind).collect()
}

fn positions(input: &str) -> Vec<usize> {
    tokenize(input).unwrap().into_iter().map(|token| token.position).collect()
}

fn failure(input: &str) -> Error {
    tokenize(input).unwrap_err()
}

fn literal(text: &str) -> Literal {
    Literal { text: text.as_bytes().to_vec() }
}

#[test]
fn integer_is_a_real_literal() {
    let tokens = tokenize("123").unwrap();
    assert_eq!(tokens.len(), 1);
    assert_eq!(tokens[0].position, 1);
    match &tokens[0].kind {
        TokenKind::Real(literal) => assert_eq!(number(literal), 123.0),
        other => panic!("not a real literal: {:?}", other),
    }
}

#[test]
fn trailing_i_makes_an_imaginary_literal() {
    let tokens = tokenize("123i").unwrap();
    assert_eq!(tokens.len(), 1);
    match &tokens[0].kind {
        TokenKind::Imag(literal) => assert_eq!(number(literal), 123.0),
        other => panic!("not an imaginary literal: {:?}", other),
    }
}

#[test]
fn lone_i_is_the_imaginary_unit() {
    let tokens = tokenize("i").unwrap();
    assert_eq!(tokens.len(), 1);
    match &tokens[0].kind {
        TokenKind::Imag(literal) => assert_eq!(number(literal), 1.0),
        other => panic!("not an imaginary literal: {:?}", other),
    }
}

#[test]
fn decimal_point_is_part_of_a_literal() {
    let tokens = tokenize("123.456").unwrap();
    assert_eq!(tokens.len(), 1);
    match &tokens[0].kind {
        TokenKind::Real(literal) => assert_eq!(number(literal), 123.456),
        other => panic!("not a real literal: {:?}", other),
    }
}

#[test]
fn literal_keeps_its_text() {
    assert_eq!(kinds("007.50"), vec![TokenKind::Real(literal("007.50"))]);
    assert_eq!(kinds("2.5i"), vec![TokenKind::Imag(literal("2.5"))]);
    assert_eq!(kinds("i"), vec![TokenKind::Imag(literal("1"))]);
}

#[test]
fn literal_may_end_with_its_point() {
    let tokens = tokenize("1.").unwrap();
    assert_eq!(tokens, vec![Token { kind: TokenKind::Real(literal("1.")), position: 1 }]);
    match &tokens[0].kind {
        TokenKind::Real(literal) => assert_eq!(number(literal), 1.0),
        other => panic!("not a real literal: {:?}", other),
    }
    assert_eq!(kinds("1.i"), vec![TokenKind::Imag(literal("1."))]);
}

#[test]
fn literal_at_the_end_of_the_text_is_whole() {
    assert_eq!(kinds("1+23"), vec![
        TokenKind::Real(literal("1")),
        TokenKind::Add,
        TokenKind::Real(literal("23")),
    ]);
}

#[test]
fn second_point_ends_the_literal_and_is_lexed_again() {
    let e = failure("1.2.3");
    assert_eq!(e.message, "unexpected character");
    assert_eq!(e.position, 4);
}

#[test]
fn point_cannot_start_a_literal() {
    let e = failure(".5");
    assert_eq!(e.message, "unexpected character");
    assert_eq!(e.position, 1);
}

#[test]
fn operators_and_parentheses_are_single_tokens() {
    assert_eq!(kinds("()+-*/"), vec![
        TokenKind::LParen,
        TokenKind::RParen,
        TokenKind::Add,
        TokenKind::Sub,
        TokenKind::Mul,
        TokenKind::Div,
    ]);
    assert_eq!(positions("()+-*/"), vec![1, 2, 3, 4, 5, 6]);
}

#[test]
fn six_names_are_identifiers() {
    assert_eq!(kinds("whxycz"), vec![
        TokenKind::Ident(b'w'),
        TokenKind::Ident(b'h'),
        TokenKind::Ident(b'x'),
        TokenKind::Ident(b'y'),
        TokenKind::Ident(b'c'),
        TokenKind::Ident(b'z'),
    ]);
}

#[test]
fn other_letters_are_rejected() {
    for (index, name) in "abdefgjklmnopqrstuv".char_indices() {
        let text = format!("{}", name);
        let e = failure(&text);
        assert_eq!(e.message, "unexpected character", "{} at {}", name, index);
        assert_eq!(e.position, 1);
    }
    let e = failure("z*z + k");
    assert_eq!(e.message, "unexpected character");
    assert_eq!(e.position, 7);
}

#[test]
fn blanks_are_skipped_and_positions_count_them() {
    let tokens = tokenize(" \t1 +\tx ").unwrap();
    assert_eq!(tokens, vec![
        Token { kind: TokenKind::Real(literal("1")), position: 3 },
        Token { kind: TokenKind::Add, position: 5 },
        Token { kind: TokenKind::Ident(b'x'), position: 7 },
    ]);
}

#[test]
fn empty_and_blank_texts_have_no_tokens() {
    assert_eq!(tokenize("").unwrap(), vec![]);
    assert_eq!(tokenize("  \t ").unwrap(), vec![]);
}

#[test]
fn newline_is_an_unexpected_character() {
    let e = failure("1\n");
    assert_eq!(e.message, "unexpected character");
    assert_eq!(e.position, 2);
}

#[test]
fn byte_outside_ascii_is_an_unexpected_character() {
    let e = failure("1+\u{e9}");
    assert_eq!(e.message, "unexpected character");
    assert_eq!(e.position, 3);
}

#[test]
fn literal_followed_by_a_name_is_two_tokens() {
    assert_eq!(kinds("2x"), vec![TokenKind::Real(literal("2")), TokenKind::Ident(b'x')]);
    assert_eq!(positions("2ix"), vec![1, 3]);
    assert_eq!(positions("12.5i+3"), vec![1, 6, 7]);
}

#[test]
fn positions_strictly_increase() {
    for input in ["z*z+c", "(1.5 - 2i) / w", "i i i", "1 2 3", "-(-(x))"] {
        let found = positions(input);
        for pair in found.windows(2) {
            assert!(pair[0] < pair[1], "{}", input);
        }
        for position in found {
            assert!(1 <= position && position <= input.len());
        }
    }
}

#[test]
fn lexing_twice_gives_the_same_tokens() {
    for input in ["z*z+c", "(1.5 - 2i) / w", "1 +", "q"] {
        assert_eq!(tokenize(input), tokenize(input));
    }
}

#[test]
fn literal_constants_spell_zero_and_one() {
    assert_eq!(Literal::zero(), literal("0"));
    assert_eq!(Literal::one(), literal("1"));
    assert_eq!(number(&Literal::zero()), 0.0);
    assert_eq!(number(&Literal::one()), 1.0);
}
