use bike::{Decimal, Token, TokenError, Tokenizer};

fn tokens(src: &[u8]) -> Vec<Result<Token, TokenError>> {
    let mut lex = Tokenizer::new(src.to_vec());
    let mut out = Vec::new();
    loop {
        let t = lex.token();
        let stop = !matches!(t, Ok(ref k) if *k != Token::EndOfInput);
        out.push(t);
        if stop {
            return out;
        }
    }
}

fn ident(s: &str) -> Result<Token, TokenError> {
    Ok(Token::Identifier(s.to_string()))
}

fn text(s: &str) -> Result<Token, TokenError> {
    Ok(Token::StringLiteral(s.to_string()))
}

fn number(negative: bool, whole: &str, frac: &str) -> Result<Token, TokenError> {
    Ok(Token::NumberLiteral(Decimal {
        negative,
        whole: whole.as_bytes().to_vec(),
        frac: frac.as_bytes().to_vec(),
    }))
}

#[test]
fn lexer_test() {
    let src = "('is it workin''?') = lol ; comment".as_bytes().to_vec();
    let mut lex = Tokenizer::new(src);

    assert_eq!(lex.token(), Ok(Token::LParen));
    assert_eq!(lex.token(), Ok(Token::StringLiteral("is it workin'?".to_string())));
    assert_eq!(lex.token(), Ok(Token::RParen));
    assert_eq!(lex.token(), Ok(Token::Equals));
    assert_eq!(lex.token(), Ok(Token::Identifier("lol".to_string())));
    assert_eq!(lex.token(), Ok(Token::EndOfInput));
}

#[test]
fn doubled_quote_is_one_quote() {
    assert_eq!(tokens(b"'is it workin''?'"), vec![text("is it workin'?"), Ok(Token::EndOfInput)]);
    assert_eq!(tokens(b"''''"), vec![text("'"), Ok(Token::EndOfInput)]);
    assert_eq!(tokens(b"''"), vec![text(""), Ok(Token::EndOfInput)]);
}

#[test]
fn string_then_next_token() {
    assert_eq!(tokens(b"'a''b'=c"), vec![text("a'b"), Ok(Token::Equals), ident("c"), Ok(Token::EndOfInput)]);
}

#[test]
fn string_keeps_its_characters() {
    assert_eq!(tokens("'héllo wörld'".as_bytes()), vec![text("héllo wörld"), Ok(Token::EndOfInput)]);
}

#[test]
fn comments_are_transparent() {
    assert_eq!(tokens(b"; a comment { ( 'x\n{"), vec![Ok(Token::LBrace), Ok(Token::EndOfInput)]);
    assert_eq!(tokens(b"; only a comment"), vec![Ok(Token::EndOfInput)]);
    assert_eq!(tokens(b"a ; one\n; two\r\nb"), vec![ident("a"), ident("b"), Ok(Token::EndOfInput)]);
}

#[test]
fn brackets_and_equals() {
    assert_eq!(
        tokens(b"{}()="),
        vec![
            Ok(Token::LBrace),
            Ok(Token::RBrace),
            Ok(Token::LParen),
            Ok(Token::RParen),
            Ok(Token::Equals),
            Ok(Token::EndOfInput),
        ]
    );
}

#[test]
fn end_of_input_repeats() {
    let mut lex = Tokenizer::new(b"  ".to_vec());
    assert_eq!(lex.token(), Ok(Token::EndOfInput));
    assert_eq!(lex.token(), Ok(Token::EndOfInput));
    let mut empty = Tokenizer::new(Vec::new());
    assert_eq!(empty.token(), Ok(Token::EndOfInput));
}

#[test]
fn number_literals() {
    assert_eq!(tokens(b"7"), vec![number(false, "7", ""), Ok(Token::EndOfInput)]);
    assert_eq!(tokens(b"-12.50"), vec![number(true, "12", "50"), Ok(Token::EndOfInput)]);
    assert_eq!(tokens(b"0.5)"), vec![number(false, "0", "5"), Ok(Token::RParen), Ok(Token::EndOfInput)]);
    assert_eq!(tokens(b"3 = n"), vec![number(false, "3", ""), Ok(Token::Equals), ident("n"), Ok(Token::EndOfInput)]);
}

#[test]
fn invalid_numbers() {
    for src in [&b"1."[..], b"-", b"1a", b"1.2.3", b"-.5", b"9-", b"--1"] {
        let mut lex = Tokenizer::new(src.to_vec());
        assert_eq!(lex.token(), Err(TokenError::InvalidNumber), "{:?}", src);
    }
}

#[test]
fn unterminated_string() {
    assert_eq!(Tokenizer::new(b"'abc".to_vec()).token(), Err(TokenError::UnterminatedString));
    assert_eq!(Tokenizer::new(b"'abc''".to_vec()).token(), Err(TokenError::UnterminatedString));
    assert_eq!(Tokenizer::new(b"'".to_vec()).token(), Err(TokenError::UnterminatedString));
}

#[test]
fn invalid_encoding() {
    assert_eq!(Tokenizer::new(vec![b'\'', 0xff, b'\'']).token(), Err(TokenError::InvalidEncoding));
}

#[test]
fn malformed_identifier_is_a_read_failure() {
    assert_eq!(Tokenizer::new(vec![b'A', 0xc3]).token(), Err(TokenError::IoFailure));
    assert_eq!(Tokenizer::new(vec![0xff]).token(), Err(TokenError::IoFailure));
    assert_eq!(Tokenizer::new(vec![b'x', 0x80, b' ']).token(), Err(TokenError::IoFailure));
}

#[test]
fn unexpected_character() {
    for c in [b'!', b'#', b'@', b'*', b'"', b'<', b'.'] {
        assert_eq!(Tokenizer::new(vec![c]).token(), Err(TokenError::UnexpectedCharacter));
    }
}

#[test]
fn identifier_threshold_is_the_letter_a() {
    assert_eq!(tokens(b"[abc]"), vec![ident("[abc]"), Ok(Token::EndOfInput)]);
    assert_eq!(tokens(b"A!b-1"), vec![ident("A!b-1"), Ok(Token::EndOfInput)]);
    assert_eq!(tokens("été".as_bytes()), vec![ident("été"), Ok(Token::EndOfInput)]);
    assert_eq!(tokens(b"a=b"), vec![ident("a"), Ok(Token::Equals), ident("b"), Ok(Token::EndOfInput)]);
    assert_eq!(tokens(b"x'y'"), vec![ident("x"), text("y"), Ok(Token::EndOfInput)]);
}

#[test]
fn unicode_white_space_separates() {
    assert_eq!(tokens("a\u{a0}b".as_bytes()), vec![ident("a"), ident("b"), Ok(Token::EndOfInput)]);
    assert_eq!(tokens("\u{3000}{\u{2028}}".as_bytes()), vec![Ok(Token::LBrace), Ok(Token::RBrace), Ok(Token::EndOfInput)]);
    assert_eq!(tokens("a\u{200b}b".as_bytes()), vec![ident("a\u{200b}b"), Ok(Token::EndOfInput)]);
    assert_eq!(tokens(b"\t\x0b\x0c\r\n a"), vec![ident("a"), Ok(Token::EndOfInput)]);
}
