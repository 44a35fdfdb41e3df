use ini_lexer::flat::{is_token, lex_flat, parse, parse_checked, LexError, Lexeme};

#[test]
fn parser_dos_one_line_comment() {
    let parsed = parse("; hello\n\n", ';');
    let expected = vec![
        Lexeme::Comment(" hello".to_string()),
        Lexeme::EndOfLine,
        Lexeme::EndOfLine,
    ];
    assert_eq!(expected, parsed)
}

#[test]
fn parser_dos_section_with_one_line_comment() {
    let parsed = parse("\t[section]; comment text", ';');
    let expected = vec![
        Lexeme::Whitespace("\t".to_string()),
        Lexeme::Separator('['),
        Lexeme::Token("section".to_string()),
        Lexeme::Separator(']'),
        Lexeme::Comment(" comment text".to_string()),
    ];
    assert_eq!(expected, parsed);
}

#[test]
fn parser_dos_section_with_next_line_comment() {
    let parsed = parse("[section]\n# comment text\n", '#');
    let expected = vec![
        Lexeme::Separator('['),
        Lexeme::Token("section".to_string()),
        Lexeme::Separator(']'),
        Lexeme::EndOfLine,
        Lexeme::Comment(" comment text".to_string()),
        Lexeme::EndOfLine,
    ];
    assert_eq!(expected, parsed);
}

#[test]
fn parser_dos_key_value_with_one_line_comment() {
    let parsed = parse("key = value ; this is key with value", ';');
    let expected = vec![
        Lexeme::Token("key".to_string()),
        Lexeme::Whitespace(" ".to_string()),
        Lexeme::Separator('='),
        Lexeme::Whitespace(" ".to_string()),
        Lexeme::Token("value".to_string()),
        Lexeme::Whitespace(" ".to_string()),
        Lexeme::Comment(" this is key with value".to_string()),
    ];
    assert_eq!(expected, parsed);
}

#[test]
fn parser_dos_all_in_one_ini() {
    let ini_config = "\n; pre section comment\n[section] ; side comment\n; pre kv comment\nparam1 = a # b ; side comment";

    let parsed = parse(ini_config, ';');
    let expected = vec![
        Lexeme::EndOfLine,
        Lexeme::Comment(" pre section comment".to_string()),
        Lexeme::EndOfLine,
        Lexeme::Separator('['),
        Lexeme::Token("section".to_string()),
        Lexeme::Separator(']'),
        Lexeme::Whitespace(" ".to_string()),
        Lexeme::Comment(" side comment".to_string()),
        Lexeme::EndOfLine,
        Lexeme::Comment(" pre kv comment".to_string()),
        Lexeme::EndOfLine,
        Lexeme::Token("param1".to_string()),
        Lexeme::Whitespace(" ".to_string()),
        Lexeme::Separator('='),
        Lexeme::Whitespace(" ".to_string()),
        Lexeme::Token("a".to_string()),
        Lexeme::Whitespace(" ".to_string()),
        Lexeme::Token("#".to_string()),
        Lexeme::Whitespace(" ".to_string()),
        Lexeme::Token("b".to_string()),
        Lexeme::Whitespace(" ".to_string()),
        Lexeme::Comment(" side comment".to_string()),
    ];

    assert_eq!(expected, parsed);
}

/// Concatenates the literal text every lexeme stands for.
fn reconstruct(lexemes: &[Lexeme], comment: char) -> String {
    let mut out = String::new();
    for l in lexemes {
        match l {
            Lexeme::EndOfLine => out.push('\n'),
            Lexeme::Separator(c) => out.push(*c),
            Lexeme::Whitespace(t) => out.push_str(t),
            Lexeme::Comment(t) => {
                out.push(comment);
                out.push_str(t);
            }
            Lexeme::Token(t) => out.push_str(t),
        }
    }
    out
}

#[test]
fn flat_round_trip_reconstructs_input() {
    let input = "a = 1 ; c\n[s]\t\r next = x\n";
    let lexemes = lex_flat(input, ';', false).unwrap();
    assert_eq!(input, reconstruct(&lexemes, ';'));

    let unterminated = "x = y\n[abc";
    let lexemes = lex_flat(unterminated, ';', false).unwrap();
    assert_eq!(unterminated, reconstruct(&lexemes, ';'));
}

#[test]
fn flat_unterminated_section_absorbs_without_closer() {
    // The header name absorbs to end of input; no `]` separator is
    // emitted, since none was consumed — consistent with semantic mode.
    let parsed = parse("[abc", ';');
    let expected = vec![Lexeme::Separator('['), Lexeme::Token("abc".to_string())];
    assert_eq!(expected, parsed);
}

#[test]
fn flat_fatal_character_cites_line_and_column() {
    // `\u{1}` is not alphanumeric, not whitespace, not ASCII punctuation
    // and not the introducer: lexing aborts at its exact position.
    let r = lex_flat(" \u{1}", ';', true);
    assert_eq!(Err(LexError { character: '\u{1}', line: 1, pos: 2 }), r);

    let r = lex_flat("[s]\nab \u{1}x", ';', true);
    assert_eq!(Err(LexError { character: '\u{1}', line: 2, pos: 4 }), r);
}

#[test]
fn flat_crlf_variant_discards_carriage_return() {
    let parsed = lex_flat("a\r\nb", ';', true).unwrap();
    let expected = vec![
        Lexeme::Token("a".to_string()),
        Lexeme::EndOfLine,
        Lexeme::Token("b".to_string()),
    ];
    assert_eq!(expected, parsed);
}

#[test]
fn flat_base_variant_keeps_carriage_return_as_whitespace() {
    let parsed = lex_flat("a\r\nb", ';', false).unwrap();
    let expected = vec![
        Lexeme::Token("a".to_string()),
        Lexeme::Whitespace("\r\n".to_string()),
        Lexeme::Token("b".to_string()),
    ];
    assert_eq!(expected, parsed);
}

#[test]
fn flat_comment_ends_at_end_of_input() {
    let parsed = parse("# tail", '#');
    let expected = vec![Lexeme::Comment(" tail".to_string())];
    assert_eq!(expected, parsed);
}

#[test]
fn flat_maximal_whitespace_run_is_one_lexeme() {
    let parsed = parse("a \t b", ';');
    let expected = vec![
        Lexeme::Token("a".to_string()),
        Lexeme::Whitespace(" \t ".to_string()),
        Lexeme::Token("b".to_string()),
    ];
    assert_eq!(expected, parsed);
}

#[test]
fn flat_empty_input_yields_nothing() {
    assert_eq!(Vec::<Lexeme>::new(), parse("", ';'));
}

#[test]
fn is_token_excludes_the_comment_introducer() {
    assert!(is_token('x', ';'));
    assert!(is_token('0', ';'));
    assert!(is_token('#', ';'));
    assert!(!is_token(';', ';'));
    assert!(!is_token(' ', ';'));
    assert!(!is_token('\u{1}', ';'));
}

#[test]
fn parse_checked_reports_the_fatal_case() {
    let ok = parse_checked("[a]", ';');
    assert_eq!(
        Some(vec![
            Lexeme::Separator('['),
            Lexeme::Token("a".to_string()),
            Lexeme::Separator(']'),
        ]),
        ok
    );
    assert_eq!(None, parse_checked("\u{1}", ';'));
}
