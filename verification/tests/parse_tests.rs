use ksymtypes::parse::is_declaration_file;
use ksymtypes::parse::is_separator;
use ksymtypes::parse::parse_line;
use ksymtypes::token::Token;

#[test]
fn token_knows_its_kind_and_text() {
    let atom = Token::new_atom("int");
    let typeref = Token::new_typeref("s#foo");
    assert_eq!(atom.as_str(), "int");
    assert_eq!(typeref.as_str(), "s#foo");
    assert!(matches!(atom, Token::Atom(_)));
    assert!(matches!(typeref, Token::TypeRef(_)));
    assert!(atom == Token::new_atom("int"));
    assert!(atom != Token::new_atom("long"));
    assert!(atom != Token::new_typeref("int"));
}

#[test]
fn word_is_a_reference_iff_its_second_character_is_the_marker() {
    assert!(Token::is_typeref("s#foo"));
    assert!(Token::is_typeref("u#foo"));
    assert!(Token::is_typeref("e#foo"));
    assert!(Token::is_typeref("t#foo"));
    assert!(Token::is_typeref("x#"));
    assert!(Token::is_typeref("##"));
    assert!(Token::is_typeref("é#a"));
    assert!(!Token::is_typeref(""));
    assert!(!Token::is_typeref("#"));
    assert!(!Token::is_typeref("s"));
    assert!(!Token::is_typeref("#s"));
    assert!(!Token::is_typeref("st#foo"));
    assert!(!Token::is_typeref("foo"));
}

#[test]
fn from_string_classifies_and_keeps_the_text() {
    assert!(Token::from_string("s#foo".to_string()) == Token::new_typeref("s#foo"));
    assert!(Token::from_string("foo".to_string()) == Token::new_atom("foo"));
    assert!(Token::from_string("#".to_string()) == Token::new_atom("#"));
    assert!(Token::from_string("".to_string()) == Token::new_atom(""));
}

#[test]
fn separators_are_the_ascii_whitespace() {
    for c in [' ', '\t', '\n', '\x0C', '\r'] {
        assert!(is_separator(c));
    }
    for c in ['a', '#', '\x0B', '\u{a0}', '\u{2003}', '\0'] {
        assert!(!is_separator(c));
    }
}

#[test]
fn line_without_words_holds_no_declaration() {
    assert!(parse_line("").is_none());
    assert!(parse_line("   ").is_none());
    assert!(parse_line(" \t\r\x0C ").is_none());
}

#[test]
fn line_is_split_into_name_and_tokens() {
    let (name, tokens) = parse_line("s#foo struct foo { s#bar * b ; }").unwrap();
    assert_eq!(name, "s#foo");
    assert_eq!(
        tokens,
        vec![
            Token::new_atom("struct"),
            Token::new_atom("foo"),
            Token::new_atom("{"),
            Token::new_typeref("s#bar"),
            Token::new_atom("*"),
            Token::new_atom("b"),
            Token::new_atom(";"),
            Token::new_atom("}"),
        ]
    );
}

#[test]
fn line_with_runs_of_separators() {
    let (name, tokens) = parse_line("\t foo \t\t int  \x0C foo\r").unwrap();
    assert_eq!(name, "foo");
    assert_eq!(tokens, vec![Token::new_atom("int"), Token::new_atom("foo")]);
}

#[test]
fn line_with_name_alone() {
    let (name, tokens) = parse_line("s#opaque").unwrap();
    assert_eq!(name, "s#opaque");
    assert!(tokens.is_empty());
}

#[test]
fn declared_name_is_never_classified() {
    // The first word is the name, whatever it looks like; the same word in the
    // body is a token.
    let (name, tokens) = parse_line("s#a s#a a").unwrap();
    assert_eq!(name, "s#a");
    assert_eq!(tokens, vec![Token::new_typeref("s#a"), Token::new_atom("a")]);
}

#[test]
fn line_with_other_unicode_space_is_not_split_there() {
    let (name, tokens) = parse_line("foo a\u{a0}b").unwrap();
    assert_eq!(name, "foo");
    assert_eq!(tokens, vec![Token::new_atom("a\u{a0}b")]);
}

#[test]
fn declaration_files_end_in_the_suffix() {
    assert!(is_declaration_file("a.symtypes"));
    assert!(is_declaration_file("vmlinux.symtypes"));
    assert!(is_declaration_file("a.b.symtypes"));
    assert!(is_declaration_file("..symtypes"));
    assert!(is_declaration_file("é.symtypes"));
    assert!(!is_declaration_file(".symtypes"));
    assert!(!is_declaration_file("symtypes"));
    assert!(!is_declaration_file("asymtypes"));
    assert!(!is_declaration_file("a.symtypes.bak"));
    assert!(!is_declaration_file("a.SYMTYPES"));
    assert!(!is_declaration_file("a.symtype"));
    assert!(!is_declaration_file(""));
}
