use c_compiler::lexer::{lex, lex_bytes, parse_int, trim_leading_whitespace};
use c_compiler::token::{Keywords, LexError, Literals, Token};
use Token::{CloseBrace, CloseParen, Identifier, Keyword, Literal, OpenBrace, OpenParen, Semicolon};

fn assert_lexes_to(src: &str, result: &Result<Vec<Token>, LexError>) {
    assert_eq!(lex(&src.into()), *result);
}

#[test]
fn test_empty_program() {
    assert_lexes_to("", &Ok(vec![]));
    assert_lexes_to("    ", &Ok(vec![]));
    assert_lexes_to("   \n   \n ", &Ok(vec![]));
}

#[test]
fn test_symbolic() {
    assert_lexes_to("{", &Ok(vec![OpenBrace]));
    assert_lexes_to("}", &Ok(vec![CloseBrace]));
    assert_lexes_to("(", &Ok(vec![OpenParen]));
    assert_lexes_to(")", &Ok(vec![CloseParen]));
    assert_lexes_to(";", &Ok(vec![Semicolon]));
}

#[test]
fn test_keywords() {
    assert_lexes_to("int", &Ok(vec![Keyword(Keywords::Int)]));
    assert_lexes_to("return", &Ok(vec![Keyword(Keywords::Return)]));
}

#[test]
fn test_identifiers() {
    assert_lexes_to("x", &Ok(vec![Identifier("x".into())]));
    assert_lexes_to("abc123", &Ok(vec![Identifier("abc123".into())]));
}

#[test]
fn test_integer_literals() {
    assert_lexes_to("1", &Ok(vec![Literal(Literals::Int(1))]));
    assert_lexes_to("123", &Ok(vec![Literal(Literals::Int(123))]));
    assert_lexes_to("666", &Ok(vec![Literal(Literals::Int(666))]));
}

fn return_program(value: u32) -> Vec<Token> {
    vec![
        Keyword(Keywords::Int),
        Identifier("main".into()),
        OpenParen,
        CloseParen,
        OpenBrace,
        Keyword(Keywords::Return),
        Literal(Literals::Int(value)),
        Semicolon,
        CloseBrace,
    ]
}

#[test]
fn end_to_end_return_two() {
    assert_lexes_to("int main() {\n    return 2;\n}", &Ok(return_program(2)));
}

#[test]
fn stage_one_programs() {
    assert_lexes_to("int main() {\n    return 100;\n}", &Ok(return_program(100)));
    assert_lexes_to("int main(){return 0;}", &Ok(return_program(0)));
    assert_lexes_to(
        "\nint\nmain\n(\n)\n{\nreturn\n0\n;\n}",
        &Ok(return_program(0)),
    );
    assert_lexes_to(
        "   int   main    (  )  {   return  0 ; }",
        &Ok(return_program(0)),
    );
    assert_lexes_to("\tint main ( ) {\r\n\treturn 0;\r\n}\r\n", &Ok(return_program(0)));
}

#[test]
fn keyword_is_not_a_prefix_match() {
    assert_lexes_to("int", &Ok(vec![Keyword(Keywords::Int)]));
    assert_lexes_to("integer", &Ok(vec![Identifier("integer".into())]));
    assert_lexes_to("intx", &Ok(vec![Identifier("intx".into())]));
    assert_lexes_to("returns", &Ok(vec![Identifier("returns".into())]));
    assert_lexes_to("int(", &Ok(vec![Keyword(Keywords::Int), OpenParen]));
    assert_lexes_to("return;", &Ok(vec![Keyword(Keywords::Return), Semicolon]));
}

#[test]
fn whitespace_only_input() {
    assert_lexes_to("   \n  ", &Ok(vec![]));
    assert_lexes_to("\t\r\n", &Ok(vec![]));
}

#[test]
fn extra_whitespace_between_tokens() {
    let tight = lex(&"int main(){return 2;}".into());
    let loose = lex(&"  int   main ( ) {\n\n  return\t2 ;\n}  ".into());
    assert_eq!(tight, Ok(return_program(2)));
    assert_eq!(loose, tight);
}

#[test]
fn sixteen_digits_are_one_literal() {
    // 1234567890123456 reduced modulo 2^32
    let expected = (1234567890123456u64 % (1u64 << 32)) as u32;
    assert_lexes_to("1234567890123456", &Ok(vec![Literal(Literals::Int(expected))]));
    assert_lexes_to("0000000000000007", &Ok(vec![Literal(Literals::Int(7))]));
}

#[test]
fn seventeen_digits_are_too_long() {
    assert_lexes_to(
        "12345678901234567",
        &Err(LexError::LiteralTooLong { position: 0 }),
    );
    assert_lexes_to(
        "return 12345678901234567;",
        &Err(LexError::LiteralTooLong { position: 7 }),
    );
}

#[test]
fn thirty_two_characters_are_one_identifier() {
    let name = "abcdefghijklmnopqrstuvwxyz012345";
    assert_eq!(name.len(), 32);
    assert_lexes_to(name, &Ok(vec![Identifier(name.into())]));
}

#[test]
fn thirty_three_characters_are_too_long() {
    let name = "abcdefghijklmnopqrstuvwxyz0123456";
    assert_eq!(name.len(), 33);
    assert_lexes_to(name, &Err(LexError::IdentifierTooLong { position: 0 }));
    assert_lexes_to(
        &format!("int {};", name),
        &Err(LexError::IdentifierTooLong { position: 4 }),
    );
}

#[test]
fn unrecognized_character() {
    assert_lexes_to(
        "#",
        &Err(LexError::UnrecognizedInput { position: 0, remaining: b"#".to_vec() }),
    );
    assert_lexes_to(
        "int x = 1;",
        &Err(LexError::UnrecognizedInput { position: 6, remaining: b"= 1;".to_vec() }),
    );
    assert_lexes_to(
        "a\u{e9}",
        &Err(LexError::UnrecognizedInput { position: 1, remaining: vec![0xC3, 0xA9] }),
    );
}

#[test]
fn digits_then_letters_split() {
    assert_lexes_to(
        "123abc",
        &Ok(vec![Literal(Literals::Int(123)), Identifier("abc".into())]),
    );
    assert_lexes_to("a1", &Ok(vec![Identifier("a1".into())]));
    assert_lexes_to("Zz9", &Ok(vec![Identifier("Zz9".into())]));
}

#[test]
fn form_feed_is_not_whitespace() {
    assert_lexes_to(
        "\x0c",
        &Err(LexError::UnrecognizedInput { position: 0, remaining: vec![0x0C] }),
    );
}

#[test]
fn lex_bytes_matches_lex() {
    assert_eq!(lex_bytes(b" ; 42 "), Ok(vec![Semicolon, Literal(Literals::Int(42))]));
    assert_eq!(
        lex_bytes(&[0xFF]),
        Err(LexError::UnrecognizedInput { position: 0, remaining: vec![0xFF] })
    );
}

#[test]
fn parse_int_values() {
    assert_eq!(parse_int(b""), 0);
    assert_eq!(parse_int(b"0"), 0);
    assert_eq!(parse_int(b"4294967295"), 4294967295);
    assert_eq!(parse_int(b"4294967296"), 0);
    assert_eq!(parse_int(b"4294967306"), 10);
}

#[test]
fn literal_wraps_modulo_two_to_the_32() {
    assert_lexes_to("4294967297", &Ok(vec![Literal(Literals::Int(1))]));
}

#[test]
fn trim_leading_whitespace_drops_only_leading_space() {
    assert_eq!(trim_leading_whitespace(b" \t\r\n x y "), b"x y ");
    assert_eq!(trim_leading_whitespace(b""), b"");
    assert_eq!(trim_leading_whitespace(b"   "), b"");
    assert_eq!(trim_leading_whitespace(b"{ "), b"{ ");
}

#[test]
fn read_file_decodes_utf8() {
    assert_eq!(c_compiler::source::read_file(b"int main".to_vec()), Some("int main".to_string()));
    assert_eq!(c_compiler::source::read_file("caf\u{e9}".as_bytes().to_vec()), Some("caf\u{e9}".to_string()));
    assert_eq!(c_compiler::source::read_file(vec![0x66, 0xFF]), None);
    assert_eq!(c_compiler::source::read_file(vec![]), Some(String::new()));
}
