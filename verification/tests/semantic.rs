use ini_lexer::semantic::{ParseResult, Parser, Token};

fn collect(mut p: Parser<'_>) -> Vec<ParseResult> {
    let mut out = Vec::new();
    while let Some(t) = p.next() {
        out.push(t);
    }
    out
}

#[test]
fn parser_uno_one_line_comment() {
    let parser = Parser::new(';', "; hello\n\n");
    let expected = vec![
        ParseResult::Token(Token::Comment { text: " hello".to_string() }),
        ParseResult::Token(Token::EndOfLine),
        ParseResult::Token(Token::EndOfLine),
    ];
    let parsed: Vec<ParseResult> = collect(parser);
    assert_eq!(expected, parsed);
}

#[test]
fn parser_uno_section_with_one_line_comment() {
    let parser = Parser::new(';', "\t[section]; comment text");
    let expected = vec![
        ParseResult::Token(Token::Header { name: "section".to_string() }),
        ParseResult::Token(Token::Comment { text: " comment text".to_string() }),
    ];
    let parsed: Vec<ParseResult> = collect(parser);
    assert_eq!(expected, parsed);
}

#[test]
fn parser_uno_section_with_next_line_comment() {
    let parser = Parser::new('#', "[section]\n# comment text");
    let expected = vec![
        ParseResult::Token(Token::Header { name: "section".to_string() }),
        ParseResult::Token(Token::EndOfLine),
        ParseResult::Token(Token::Comment { text: " comment text".to_string() }),
    ];
    let parsed: Vec<ParseResult> = collect(parser);
    assert_eq!(expected, parsed);
}

#[test]
fn parser_uno_key_value_with_one_line_comment() {
    let parser = Parser::new(';', "key = value ; this is key with value");
    let expected = vec![
        ParseResult::Token(Token::KeyValue { key: "key".to_string(), value: "value".to_string() }),
        ParseResult::Token(Token::Comment { text: " this is key with value".to_string() }),
    ];
    let parsed: Vec<ParseResult> = collect(parser);
    assert_eq!(expected, parsed);
}

#[test]
fn parser_uno_all_in_one_ini() {
    let ini_config = "; DO NOT EDIT\n; game configuration file\n[graphics] ; graphics options\nscreen_size = 1280x720 ; fmt: WxH\nmonitor = 0 # not comment\n\n[game]\n; i know, you don't like it\nskip_cutscene = true";
    let parser = Parser::new(';', ini_config);
    let expected = vec![
        ParseResult::Token(Token::Comment { text: " DO NOT EDIT".to_string() }),
        ParseResult::Token(Token::EndOfLine),
        ParseResult::Token(Token::Comment { text: " game configuration file".to_string() }),
        ParseResult::Token(Token::EndOfLine),
        ParseResult::Token(Token::Header { name: "graphics".to_string() }),
        ParseResult::Token(Token::Comment { text: " graphics options".to_string() }),
        ParseResult::Token(Token::EndOfLine),
        ParseResult::Token(Token::KeyValue {
            key: "screen_size".to_string(),
            value: "1280x720".to_string(),
        }),
        ParseResult::Token(Token::Comment { text: " fmt: WxH".to_string() }),
        ParseResult::Token(Token::EndOfLine),
        ParseResult::Token(Token::KeyValue {
            key: "monitor".to_string(),
            value: "0 # not comment".to_string(),
        }),
        ParseResult::Token(Token::EndOfLine),
        ParseResult::Token(Token::EndOfLine),
        ParseResult::Token(Token::Header { name: "game".to_string() }),
        ParseResult::Token(Token::EndOfLine),
        ParseResult::Token(Token::Comment { text: " i know, you don't like it".to_string() }),
        ParseResult::Token(Token::EndOfLine),
        ParseResult::Token(Token::KeyValue {
            key: "skip_cutscene".to_string(),
            value: "true".to_string(),
        }),
    ];
    let parsed: Vec<ParseResult> = collect(parser);
    assert_eq!(expected, parsed);
}

#[test]
fn trimmed_key_value_drops_surrounding_spaces() {
    let parser = Parser::new(';', "key = value ; trailing");
    let expected = vec![
        ParseResult::Token(Token::KeyValue { key: "key".to_string(), value: "value".to_string() }),
        ParseResult::Token(Token::Comment { text: " trailing".to_string() }),
    ];
    assert_eq!(expected, collect(parser));
}

#[test]
fn untrimmed_key_value_preserves_spaces() {
    let parser = Parser::new_with_policy(';', "key = value ; trailing", false);
    let expected = vec![
        ParseResult::Token(Token::KeyValue {
            key: "key ".to_string(),
            value: " value ".to_string(),
        }),
        ParseResult::Token(Token::Comment { text: " trailing".to_string() }),
    ];
    assert_eq!(expected, collect(parser));
}

#[test]
fn semantic_unterminated_section_absorbs_to_end() {
    // The header name absorbs everything after the missing `]`.
    let parser = Parser::new(';', "[abc");
    let expected = vec![ParseResult::Token(Token::Header { name: "abc".to_string() })];
    assert_eq!(expected, collect(parser));
}

#[test]
fn semantic_unrecognized_character_ends_sequence_silently() {
    // `@` is neither introducer, line feed, `[`, whitespace nor
    // alphanumeric: the sequence ends without a token and without an error.
    let parser = Parser::new(';', "@key = value");
    assert_eq!(Vec::<ParseResult>::new(), collect(parser));
}

#[test]
fn semantic_comment_ends_at_end_of_input() {
    let parser = Parser::new(';', "; tail");
    let expected = vec![ParseResult::Token(Token::Comment { text: " tail".to_string() })];
    assert_eq!(expected, collect(parser));
}

#[test]
fn semantic_empty_input_yields_nothing() {
    let parser = Parser::new(';', "");
    assert_eq!(Vec::<ParseResult>::new(), collect(parser));
}

#[test]
fn semantic_whitespace_run_swallows_line_feed() {
    // The inter-construct whitespace skip is a maximal run of whitespace,
    // so a line feed inside the run produces no EndOfLine token.
    let parser = Parser::new(';', " \nx = 1");
    let expected = vec![
        ParseResult::Token(Token::KeyValue { key: "x".to_string(), value: "1".to_string() }),
    ];
    assert_eq!(expected, collect(parser));
}

#[test]
fn semantic_value_stops_at_line_feed() {
    // The raw value region runs from just after `=` to the next line feed
    // or introducer; a line feed right after `=` makes the value empty.
    let parser = Parser::new(';', "a =\nb = 2");
    let expected = vec![
        ParseResult::Token(Token::KeyValue { key: "a".to_string(), value: "".to_string() }),
        ParseResult::Token(Token::EndOfLine),
        ParseResult::Token(Token::KeyValue { key: "b".to_string(), value: "2".to_string() }),
    ];
    assert_eq!(expected, collect(parser));
}
