use bike::{parse, BObject, Bracket, Decimal, ErrorCode, Parser, Token, Tokenizer};

fn doc(src: &str) -> Result<BObject, ErrorCode> {
    parse(src.as_bytes().to_vec())
}

fn string(s: &str) -> BObject {
    BObject::String(s.to_string())
}

fn entries(v: &BObject) -> &Vec<(String, BObject)> {
    match v {
        BObject::Dictionary(e) => e,
        other => panic!("not a dictionary: {:?}", other),
    }
}

#[test]
fn parser_test() {
    let src = "'bikeML' = name 
                ('fun' 'minimalistic' 'crazy') = features 
                {'foo' = bar  'bar' = baz} = lol ; yeah!"
        .as_bytes()
        .to_vec();
    let mut parser = Parser::new(Tokenizer::new(src));
    let obj = parser.parse();

    let root = match obj {
        Ok(d @ BObject::Dictionary(_)) => d,
        _ => panic!(),
    };

    assert_eq!(root.get("name"), Some(&string("bikeML")));

    let exp_lst = vec![string("fun"), string("minimalistic"), string("crazy")];
    assert_eq!(root.get("features"), Some(&BObject::List(exp_lst)));

    let dict = root.get("lol").unwrap();
    assert_eq!(dict.get("bar"), Some(&string("foo")));
    assert_eq!(dict.get("baz"), Some(&string("bar")));
}

#[test]
fn scenario_b_whole_tree() {
    let root = doc("'bikeML' = name\n('fun' 'minimalistic' 'crazy') = features\n{'foo' = bar  'bar' = baz} = lol ; yeah!\n").unwrap();
    let expected = BObject::Dictionary(vec![
        (
            "features".to_string(),
            BObject::List(vec![string("fun"), string("minimalistic"), string("crazy")]),
        ),
        (
            "lol".to_string(),
            BObject::Dictionary(vec![("bar".to_string(), string("foo")), ("baz".to_string(), string("bar"))]),
        ),
        ("name".to_string(), string("bikeML")),
    ]);
    assert_eq!(root, expected);
}

#[test]
fn empty_document_is_empty_dictionary() {
    assert_eq!(doc(""), Ok(BObject::Dictionary(Vec::new())));
    assert_eq!(doc("  ; nothing here\n"), Ok(BObject::Dictionary(Vec::new())));
}

#[test]
fn root_is_always_a_dictionary() {
    for src in ["('a') = l", "'x' = y", "{} = d", "(1 2) = n"] {
        assert!(matches!(doc(src), Ok(BObject::Dictionary(_))), "{}", src);
    }
}

#[test]
fn postfix_assignment() {
    let root = doc("'foo' = bar").unwrap();
    assert_eq!(root, BObject::Dictionary(vec![("bar".to_string(), string("foo"))]));
    assert_eq!(root.get("foo"), None);
}

#[test]
fn string_literal_as_key() {
    let root = doc("'v' = 'my key'").unwrap();
    assert_eq!(root.get("my key"), Some(&string("v")));
}

#[test]
fn overwrite_keeps_last_value() {
    let root = doc("'first' = k 'second' = k").unwrap();
    assert_eq!(entries(&root).len(), 1);
    assert_eq!(root.get("k"), Some(&string("second")));
}

#[test]
fn keys_are_ordered() {
    let root = doc("'1' = b '2' = a '3' = c '4' = B").unwrap();
    let keys: Vec<&str> = entries(&root).iter().map(|(k, _)| k.as_str()).collect();
    assert_eq!(keys, vec!["B", "a", "b", "c"]);
}

#[test]
fn numbers_in_values() {
    let root = doc("(1 -2.5) = n 10 = m").unwrap();
    let one = BObject::Number(Decimal { negative: false, whole: b"1".to_vec(), frac: Vec::new() });
    let minus = BObject::Number(Decimal { negative: true, whole: b"2".to_vec(), frac: b"5".to_vec() });
    assert_eq!(root.get("n"), Some(&BObject::List(vec![one, minus])));
    let ten = BObject::Number(Decimal { negative: false, whole: b"10".to_vec(), frac: Vec::new() });
    assert_eq!(root.get("m"), Some(&ten));
}

#[test]
fn nested_containers() {
    let root = doc("{ ((1) ()) = x {} = y } = d").unwrap();
    let d = root.get("d").unwrap();
    let one = BObject::Number(Decimal { negative: false, whole: b"1".to_vec(), frac: Vec::new() });
    assert_eq!(
        d.get("x"),
        Some(&BObject::List(vec![BObject::List(vec![one]), BObject::List(Vec::new())]))
    );
    assert_eq!(d.get("y"), Some(&BObject::Dictionary(Vec::new())));
}

#[test]
fn comment_then_next_line() {
    let root = doc("'a' = b ; 'ignored' = c\n'd' = e").unwrap();
    assert_eq!(entries(&root).len(), 2);
    assert_eq!(root.get("e"), Some(&string("d")));
    assert_eq!(root.get("c"), None);
}

#[test]
fn unterminated_brackets() {
    assert_eq!(doc("{ 'a' = b"), Err(ErrorCode::UnterminatedBracket(Bracket::Brace)));
    assert_eq!(doc("("), Err(ErrorCode::UnterminatedBracket(Bracket::Paren)));
    assert_eq!(doc("{ ('a'"), Err(ErrorCode::UnterminatedBracket(Bracket::Paren)));
}

#[test]
fn mismatched_brackets() {
    assert_eq!(doc("}"), Err(ErrorCode::MismatchedBracket(Bracket::Brace)));
    assert_eq!(doc(")"), Err(ErrorCode::MismatchedBracket(Bracket::Paren)));
    assert_eq!(doc("( }"), Err(ErrorCode::MismatchedBracket(Bracket::Brace)));
    assert_eq!(doc("{ )"), Err(ErrorCode::MismatchedBracket(Bracket::Paren)));
}

#[test]
fn expected_equals() {
    assert_eq!(doc("'a' 'b'"), Err(ErrorCode::ExpectedEquals(Token::StringLiteral("b".to_string()))));
    assert_eq!(doc("'a'"), Err(ErrorCode::ExpectedEquals(Token::EndOfInput)));
    assert_eq!(doc("{} x"), Err(ErrorCode::ExpectedEquals(Token::Identifier("x".to_string()))));
}

#[test]
fn expected_key() {
    assert_eq!(doc("'a' = ("), Err(ErrorCode::ExpectedKey(Token::LParen)));
    assert_eq!(doc("'a' = ="), Err(ErrorCode::ExpectedKey(Token::Equals)));
    assert_eq!(doc("'a' ="), Err(ErrorCode::ExpectedKey(Token::EndOfInput)));
}

#[test]
fn unexpected_token() {
    assert_eq!(doc("= a"), Err(ErrorCode::UnexpectedToken(Token::Equals)));
    assert_eq!(doc("abc"), Err(ErrorCode::UnexpectedToken(Token::Identifier("abc".to_string()))));
    assert_eq!(doc("('a' x)"), Err(ErrorCode::UnexpectedToken(Token::Identifier("x".to_string()))));
}

#[test]
fn lexical_errors_are_wrapped() {
    assert_eq!(doc("'abc"), Err(ErrorCode::LexError(bike::TokenError::UnterminatedString)));
    assert_eq!(doc("(1x)"), Err(ErrorCode::LexError(bike::TokenError::InvalidNumber)));
    assert_eq!(doc("'a' = !"), Err(ErrorCode::LexError(bike::TokenError::UnexpectedCharacter)));
    assert_eq!(
        parse(vec![b'\'', b'a', b'\'', b' ', b'=', b' ', 0xfe]),
        Err(ErrorCode::LexError(bike::TokenError::IoFailure))
    );
}

#[test]
fn get_on_non_dictionary() {
    assert_eq!(string("x").get("x"), None);
    assert_eq!(BObject::List(Vec::new()).get("x"), None);
}

#[test]
fn nested_keys_are_ordered() {
    let root = doc("{ 'x' = zeta 'y' = alpha 'z' = mid 'w' = alpha } = inner").unwrap();
    let inner = root.get("inner").unwrap();
    let keys: Vec<&str> = entries(inner).iter().map(|(k, _)| k.as_str()).collect();
    assert_eq!(keys, vec!["alpha", "mid", "zeta"]);
    assert_eq!(inner.get("alpha"), Some(&string("w")));
}
