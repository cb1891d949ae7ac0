use functional_from_zero::tokenizer::{
    spans_fit, tokenize, tokens_from_spans, Location, Token, TokenType, TOKEN_PATTERN,
};

fn kinds(tokens: &[Token]) -> Vec<&'static str> {
    tokens
        .iter()
        .map(|token| match token.token_type {
            TokenType::LeftParen => "(",
            TokenType::RightParen => ")",
            TokenType::LambdaStart => "\\",
            TokenType::Identifier(_) => "id",
            TokenType::WhiteSpace => "ws",
            TokenType::EndOfFile => "eof",
        })
        .collect()
}

fn places(tokens: &[Token]) -> Vec<(usize, usize)> {
    tokens
        .iter()
        .map(|token| (token.location.line_no, token.location.column_no))
        .collect()
}

fn texts<'a>(tokens: &[Token<'a>]) -> Vec<&'a str> {
    tokens.iter().map(|token| token.token_raw).collect()
}

#[test]
fn empty_text_is_one_end_token() {
    let tokens = tokenize("").unwrap();
    assert_eq!(kinds(&tokens), vec!["eof"]);
    assert_eq!(places(&tokens), vec![(1, 1)]);
    assert_eq!(texts(&tokens), vec![""]);
}

#[test]
fn a_function_in_parentheses() {
    let tokens = tokenize("(\\x x)").unwrap();
    assert_eq!(kinds(&tokens), vec!["(", "\\", "id", "ws", "id", ")", "eof"]);
    assert_eq!(texts(&tokens), vec!["(", "\\", "x", " ", "x", ")", ""]);
    assert_eq!(
        places(&tokens),
        vec![(1, 1), (1, 2), (1, 3), (1, 4), (1, 5), (1, 6), (1, 7)]
    );
}

#[test]
fn an_identifier_holds_its_text() {
    let tokens = tokenize("__builtin_p0 y").unwrap();
    assert!(matches!(
        tokens[0].token_type,
        TokenType::Identifier("__builtin_p0")
    ));
    assert!(matches!(tokens[2].token_type, TokenType::Identifier("y")));
    assert_eq!(tokens[2].location.column_no, 14);
}

#[test]
fn a_line_feed_starts_a_new_line() {
    let tokens = tokenize("a\nb\n\n c").unwrap();
    assert_eq!(
        kinds(&tokens),
        vec!["id", "ws", "id", "ws", "ws", "ws", "id", "eof"]
    );
    assert_eq!(texts(&tokens), vec!["a", "\n", "b", "\n", "\n", " ", "c", ""]);
    assert_eq!(
        places(&tokens),
        vec![(1, 1), (1, 2), (2, 1), (2, 2), (3, 1), (4, 1), (4, 2), (4, 3)]
    );
}

#[test]
fn white_space_runs_stop_at_line_feeds() {
    let tokens = tokenize(" \t\n\t ").unwrap();
    assert_eq!(texts(&tokens), vec![" \t", "\n", "\t ", ""]);
    assert_eq!(kinds(&tokens), vec!["ws", "ws", "ws", "eof"]);
    assert_eq!(places(&tokens), vec![(1, 1), (1, 3), (2, 1), (2, 3)]);
}

#[test]
fn reserved_characters_stand_alone() {
    let tokens = tokenize("a(b)c\\d").unwrap();
    assert_eq!(texts(&tokens), vec!["a", "(", "b", ")", "c", "\\", "d", ""]);
    assert_eq!(
        kinds(&tokens),
        vec!["id", "(", "id", ")", "id", "\\", "id", "eof"]
    );
    let tokens = tokenize("((").unwrap();
    assert_eq!(kinds(&tokens), vec!["(", "(", "eof"]);
}

#[test]
fn columns_count_bytes() {
    let tokens = tokenize("\u{e9}\u{e9} x").unwrap();
    assert_eq!(texts(&tokens), vec!["\u{e9}\u{e9}", " ", "x", ""]);
    assert_eq!(places(&tokens), vec![(1, 1), (1, 5), (1, 6), (1, 7)]);
}

#[test]
fn spans_decide_the_pieces() {
    let code = "ab cd";
    let tokens = tokens_from_spans(code, &vec![(0, 1), (1, 2), (3, 5)]);
    assert_eq!(texts(&tokens), vec!["a", "b", "cd", ""]);
    assert_eq!(places(&tokens), vec![(1, 1), (1, 2), (1, 3), (1, 5)]);
    assert_eq!(kinds(&tokens), vec!["id", "id", "id", "eof"]);
}

#[test]
fn reserved_characters_are_no_white_space() {
    let tokens = tokens_from_spans("(\\)", &vec![(0, 1), (1, 2), (2, 3)]);
    assert_eq!(kinds(&tokens), vec!["(", "\\", ")", "eof"]);
}

#[test]
fn white_space_is_what_unicode_calls_so() {
    let white = [
        '\u{9}', '\u{a}', '\u{b}', '\u{c}', '\u{d}', ' ', '\u{85}', '\u{a0}', '\u{1680}',
        '\u{2000}', '\u{2005}', '\u{200a}', '\u{2028}', '\u{2029}', '\u{202f}', '\u{205f}',
        '\u{3000}',
    ];
    for c in white {
        let text = c.to_string();
        let tokens = tokens_from_spans(&text, &vec![(0, text.len())]);
        assert_eq!(kinds(&tokens), vec!["ws", "eof"]);
    }
    let other = [
        '\u{8}', '\u{e}', '\u{1f}', '!', '#', 'a', '\u{84}', '\u{86}', '\u{9f}', '\u{a1}',
        '\u{167f}', '\u{1681}', '\u{180e}', '\u{1fff}', '\u{200b}', '\u{2027}', '\u{202a}',
        '\u{202e}', '\u{2030}', '\u{205e}', '\u{2060}', '\u{2fff}', '\u{3001}', '\u{feff}',
    ];
    for c in other {
        let text = c.to_string();
        let tokens = tokens_from_spans(&text, &vec![(0, text.len())]);
        assert_eq!(kinds(&tokens), vec!["id", "eof"]);
    }
}

#[test]
fn the_pattern_is_the_token_grammar() {
    assert_eq!(
        TOKEN_PATTERN,
        "[()\\\\]|\\n|[[:space:]&&[^\\n]]+|[[:^space:]&&[^()\\\\]]+"
    );
}

#[test]
fn a_place_in_words() {
    let place = Location { line_no: 12, column_no: 340 };
    assert_eq!(place.to_string(), "line 12, column 340");
    let place = Location { line_no: 1, column_no: 1 };
    assert_eq!(place.to_string(), "line 1, column 1");
    let place = Location { line_no: 0, column_no: 10 };
    assert_eq!(place.to_string(), "line 0, column 10");
}

#[test]
fn a_token_in_words() {
    let tokens = tokenize("a\n  foo").unwrap();
    assert_eq!(tokens[3].to_string(), "line 2, column 3 (near token 'foo')");
    assert_eq!(tokens[4].to_string(), "line 2, column 6");
}

#[test]
fn spans_must_lie_in_the_text_in_order() {
    let code = "a\u{e9}b";
    assert!(spans_fit(code, &vec![]));
    assert!(spans_fit(code, &vec![(0, 1), (1, 3), (3, 4)]));
    assert!(spans_fit(code, &vec![(0, 4)]));
    assert!(!spans_fit(code, &vec![(0, 0), (0, 4)]));
    assert!(!spans_fit(code, &vec![(0, 4), (4, 4)]));
    assert!(!spans_fit(code, &vec![(1, 1)]));
    assert!(spans_fit(code, &vec![(3, 4)]));
    assert!(!spans_fit(code, &vec![(1, 2)]));
    assert!(!spans_fit(code, &vec![(2, 3)]));
    assert!(!spans_fit(code, &vec![(0, 5)]));
    assert!(!spans_fit(code, &vec![(1, 0)]));
    assert!(!spans_fit(code, &vec![(0, 3), (1, 4)]));
    assert!(!spans_fit(code, &vec![(3, 4), (0, 1)]));
}

#[test]
fn every_character_is_white_space_or_not_as_the_list_says() {
    for code in 0..=0x10FFFFu32 {
        let c = match char::from_u32(code) {
            Some(c) => c,
            None => continue,
        };
        let listed = (0x09..=0x0D).contains(&code)
            || [0x20, 0x85, 0xA0, 0x1680, 0x2028, 0x2029, 0x202F, 0x205F, 0x3000].contains(&code)
            || (0x2000..=0x200A).contains(&code);
        let mut buffer = [0u8; 4];
        let text: &str = c.encode_utf8(&mut buffer);
        let tokens = tokens_from_spans(text, &vec![(0, text.len())]);
        assert_eq!(matches!(tokens[0].token_type, TokenType::WhiteSpace), listed);
    }
}
