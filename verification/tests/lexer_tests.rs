use lin_lexer::lexer::run;
use lin_lexer::lexer::Lexer;
use lin_lexer::lexer::Token;
use lin_lexer::model::LexerError;

fn text(s: &str) -> Vec<u8> {
    s.as_bytes().to_vec()
}

fn float_value(t: &Token) -> f64 {
    match t {
        Token::Float(lit) => std::str::from_utf8(lit).unwrap().parse::<f64>().unwrap(),
        _ => panic!("not a float token"),
    }
}

#[test]
fn empty_input_is_eof() {
    assert_eq!(run(b""), Ok(vec![Token::EOF]));
}

#[test]
fn whitespace_only_is_eof() {
    assert_eq!(run(b" \t\r\n\x0c  "), Ok(vec![Token::EOF]));
}

#[test]
fn int_literal() {
    assert_eq!(run(b"42"), Ok(vec![Token::Int(42), Token::EOF]));
    assert_eq!(run(b"007"), Ok(vec![Token::Int(7), Token::EOF]));
    assert_eq!(run(b"0"), Ok(vec![Token::Int(0), Token::EOF]));
}

#[test]
fn int_literal_at_range_limit() {
    assert_eq!(
        run(b"9223372036854775807"),
        Ok(vec![Token::Int(i64::MAX), Token::EOF])
    );
    assert_eq!(run(b"9223372036854775808"), Err(LexerError::InvalidNumber));
}

#[test]
fn minus_leads_a_word_not_a_number() {
    assert_eq!(
        run(b"-5"),
        Ok(vec![Token::Function(text("-5")), Token::EOF])
    );
}

#[test]
fn float_literal() {
    let tokens = run(b"1.5").unwrap();
    assert_eq!(tokens, vec![Token::Float(text("1.5")), Token::EOF]);
    assert_eq!(float_value(&tokens[0]), 1.5);
}

#[test]
fn float_literal_shapes() {
    assert_eq!(float_value(&run(b".5").unwrap()[0]), 0.5);
    assert_eq!(float_value(&run(b"1.").unwrap()[0]), 1.0);
    assert_eq!(float_value(&run(b"3.25e2").unwrap()[0]), 325.0);
    assert_eq!(float_value(&run(b"2.5E-1").unwrap()[0]), 0.25);
}

#[test]
fn malformed_floats_are_rejected() {
    assert_eq!(run(b"."), Err(LexerError::InvalidNumber));
    assert_eq!(run(b"1.5e"), Err(LexerError::InvalidNumber));
    assert_eq!(run(b"1.5e+"), Err(LexerError::InvalidNumber));
    assert_eq!(run(b".e5"), Err(LexerError::InvalidNumber));
    assert_eq!(run(b"1.2x"), Err(LexerError::InvalidNumber));
}

#[test]
fn two_dots_are_rejected() {
    assert_eq!(run(b"1.2.3"), Err(LexerError::InvalidNumber));
    assert_eq!(run(b".."), Err(LexerError::InvalidNumber));
}

#[test]
fn symbol_with_name() {
    assert_eq!(
        run(b"'foo"),
        Ok(vec![Token::Symbol(text("foo")), Token::EOF])
    );
}

#[test]
fn bare_apostrophe_is_empty_symbol() {
    assert_eq!(run(b"'"), Ok(vec![Token::Symbol(text("")), Token::EOF]));
}

#[test]
fn string_literal() {
    assert_eq!(
        run(b"\"hello world\""),
        Ok(vec![Token::String(text("hello world")), Token::EOF])
    );
}

#[test]
fn unterminated_string() {
    assert_eq!(run(b"\"unterminated"), Err(LexerError::UnterminatedString));
}

#[test]
fn bare_word_is_function() {
    assert_eq!(
        run(b"foo"),
        Ok(vec![Token::Function(text("foo")), Token::EOF])
    );
}

#[test]
fn block_with_words_and_numbers() {
    assert_eq!(
        run(b"{ 1 2 add }"),
        Ok(vec![
            Token::OpeningBrace,
            Token::Int(1),
            Token::Int(2),
            Token::Function(text("add")),
            Token::ClosingBrace,
            Token::EOF,
        ])
    );
}

#[test]
fn reserved_byte_inside_word() {
    assert_eq!(run(b"foo'bar"), Err(LexerError::InvalidSymbolName));
    assert_eq!(run(b"foo{bar"), Err(LexerError::InvalidSymbolName));
}

#[test]
fn reserved_byte_inside_number() {
    assert_eq!(run(b"1'2"), Err(LexerError::InvalidNumber));
    assert_eq!(run(b"1{2"), Err(LexerError::InvalidNumber));
}

#[test]
fn closing_brace_terminates_without_being_consumed() {
    assert_eq!(
        run(b"5}"),
        Ok(vec![Token::Int(5), Token::ClosingBrace, Token::EOF])
    );
    assert_eq!(
        run(b"'x}"),
        Ok(vec![
            Token::Symbol(text("x")),
            Token::ClosingBrace,
            Token::EOF
        ])
    );
}

#[test]
fn round_trip_of_serialized_tokens() {
    let tokens = vec![
        Token::Int(12),
        Token::Float(text("3.5")),
        Token::Symbol(text("sym")),
        Token::Function(text("foo")),
        Token::OpeningBrace,
        Token::ClosingBrace,
    ];
    let mut serialized: Vec<u8> = Vec::new();
    for (i, t) in tokens.iter().enumerate() {
        if i > 0 {
            serialized.push(b' ');
        }
        match t {
            Token::Int(v) => serialized.extend_from_slice(format!("{}", v).as_bytes()),
            Token::Float(lit) => serialized.extend_from_slice(lit),
            Token::Symbol(name) => {
                serialized.push(b'\'');
                serialized.extend_from_slice(name);
            }
            Token::Function(name) => serialized.extend_from_slice(name),
            Token::OpeningBrace => serialized.push(b'{'),
            Token::ClosingBrace => serialized.push(b'}'),
            _ => unreachable!(),
        }
    }
    assert_eq!(serialized, text("12 3.5 'sym foo { }"));
    let mut expected = tokens;
    expected.push(Token::EOF);
    assert_eq!(run(&serialized), Ok(expected));
}

#[test]
fn leading_non_ascii_byte_is_invalid_token() {
    assert_eq!(run(&[0xff]), Err(LexerError::InvalidToken));
    assert_eq!(run(&[0x31, 0x20, 0xc3]), Err(LexerError::InvalidToken));
}

#[test]
fn arbitrary_bytes_inside_string_are_kept() {
    assert_eq!(
        run(&[0x22, 0xff, 0xfe, 0x00, 0x22]),
        Ok(vec![Token::String(vec![0xff, 0xfe, 0x00]), Token::EOF])
    );
}

#[test]
fn non_ascii_bytes_inside_word_are_kept() {
    let input = [0x61, 0xc3, 0xa9];
    assert_eq!(
        run(&input),
        Ok(vec![Token::Function(input.to_vec()), Token::EOF])
    );
}

#[test]
fn lexer_new_and_tokenize() {
    let mut lexer = Lexer::new(text("'a 1"));
    let tokens = lexer.tokenize().unwrap();
    assert_eq!(
        tokens,
        vec![Token::Symbol(text("a")), Token::Int(1), Token::EOF]
    );
    // the cursor is spent: a second scan sees only the end of input
    assert_eq!(lexer.tokenize(), Ok(vec![Token::EOF]));
}

#[test]
fn error_messages() {
    assert_eq!(LexerError::InvalidNumber.message(), "invalid number");
    assert_eq!(LexerError::InvalidToken.message(), "invalid token");
    assert_eq!(LexerError::InvalidSymbolName.message(), "invalid symbol name");
    assert_eq!(
        LexerError::UnterminatedString.message(),
        "unterminated string"
    );
}
