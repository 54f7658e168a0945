use ksymtypes::corpus::SymCorpus;
use ksymtypes::token::Token;

fn atoms(words: &[&str]) -> Vec<Token> {
    words.iter().map(|word| Token::new_atom(word)).collect()
}

#[test]
fn new_corpus_is_empty() {
    let corpus = SymCorpus::new();
    assert_eq!(corpus.file_count(), 0);
    assert_eq!(corpus.export_count(), 0);
    assert_eq!(corpus.variant_count("s#foo"), 0);
    assert!(corpus.export_file("foo").is_none());
}

#[test]
fn merge_same_tokens_twice_returns_same_index() {
    let mut corpus = SymCorpus::new();
    let first = corpus.merge_type("s#foo", atoms(&["struct", "foo", "{", "}"]));
    let second = corpus.merge_type("s#foo", atoms(&["struct", "foo", "{", "}"]));
    assert_eq!(first, 0);
    assert_eq!(second, 0);
    assert_eq!(corpus.variant_count("s#foo"), 1);
}

#[test]
fn merge_different_tokens_returns_new_index() {
    let mut corpus = SymCorpus::new();
    let first = corpus.merge_type("s#foo", atoms(&["struct", "foo", "{", "}"]));
    let second = corpus.merge_type("s#foo", atoms(&["struct", "foo", "{", "int", "a", ";", "}"]));
    let third = corpus.merge_type("s#foo", atoms(&["struct", "foo", "{", "}"]));
    let elsewhere = corpus.merge_type("s#bar", atoms(&["struct", "foo", "{", "}"]));
    assert_eq!(first, 0);
    assert_eq!(second, 1);
    assert_eq!(third, 0);
    assert_eq!(elsewhere, 0);
    assert_eq!(corpus.variant_count("s#foo"), 2);
    assert_eq!(corpus.variant_count("s#bar"), 1);
}

#[test]
fn merge_tells_atom_from_reference() {
    // The same text as an atom and as a reference makes two variants.
    let mut corpus = SymCorpus::new();
    let first = corpus.merge_type("t#x", vec![Token::new_atom("s#foo")]);
    let second = corpus.merge_type("t#x", vec![Token::new_typeref("s#foo")]);
    assert_eq!(first, 0);
    assert_eq!(second, 1);
}

#[test]
fn merge_tells_order_of_tokens() {
    let mut corpus = SymCorpus::new();
    let first = corpus.merge_type("t#x", atoms(&["unsigned", "long"]));
    let second = corpus.merge_type("t#x", atoms(&["long", "unsigned"]));
    let shorter = corpus.merge_type("t#x", atoms(&["unsigned"]));
    let empty = corpus.merge_type("t#x", atoms(&[]));
    assert_eq!((first, second, shorter, empty), (0, 1, 2, 3));
}

#[test]
fn are_tokens_eq_compares_kind_and_text() {
    assert!(SymCorpus::are_tokens_eq(&atoms(&[]), &atoms(&[])));
    assert!(SymCorpus::are_tokens_eq(&atoms(&["a", "b"]), &atoms(&["a", "b"])));
    assert!(!SymCorpus::are_tokens_eq(&atoms(&["a", "b"]), &atoms(&["a"])));
    assert!(!SymCorpus::are_tokens_eq(&atoms(&["a", "b"]), &atoms(&["a", "c"])));
    assert!(!SymCorpus::are_tokens_eq(
        &vec![Token::new_atom("s#a")],
        &vec![Token::new_typeref("s#a")]
    ));
    assert!(SymCorpus::are_tokens_eq(
        &vec![Token::new_typeref("s#a")],
        &vec![Token::new_typeref("s#a")]
    ));
}

#[test]
fn load_file_records_declarations_and_exports() {
    let mut corpus = SymCorpus::new();
    corpus.load_file(
        "a.symtypes",
        "s#foo struct foo { int a ; }\nbar int bar ( s#foo )\n\n   \nt#u32 typedef unsigned int u32\n",
    );
    assert_eq!(corpus.file_count(), 1);
    assert_eq!(corpus.export_count(), 1);
    assert_eq!(corpus.export_name(0), "bar");
    let file = corpus.file(0);
    assert_eq!(file.path(), "a.symtypes");
    assert!(file.declares("s#foo"));
    assert!(file.declares("bar"));
    assert!(file.declares("t#u32"));
    assert!(!file.declares("struct"));
    let tokens = SymCorpus::get_type_tokens(&corpus, file, "bar").unwrap();
    assert_eq!(
        tokens,
        &vec![
            Token::new_atom("int"),
            Token::new_atom("bar"),
            Token::new_atom("("),
            Token::new_typeref("s#foo"),
            Token::new_atom(")"),
        ]
    );
    assert!(SymCorpus::get_type_tokens(&corpus, file, "baz").is_none());
}

#[test]
fn load_file_without_final_line_feed() {
    let mut corpus = SymCorpus::new();
    corpus.load_file("a.symtypes", "foo int foo");
    assert_eq!(corpus.export_count(), 1);
    let file = corpus.file(0);
    assert_eq!(
        SymCorpus::get_type_tokens(&corpus, file, "foo").unwrap(),
        &atoms(&["int", "foo"])
    );
}

#[test]
fn load_file_splits_on_every_ascii_whitespace() {
    let mut corpus = SymCorpus::new();
    corpus.load_file("a.symtypes", "  foo\tint \x0C foo\r\nbar long\r\n");
    assert_eq!(corpus.export_count(), 2);
    let file = corpus.file(0);
    assert_eq!(
        SymCorpus::get_type_tokens(&corpus, file, "foo").unwrap(),
        &atoms(&["int", "foo"])
    );
    assert_eq!(
        SymCorpus::get_type_tokens(&corpus, file, "bar").unwrap(),
        &atoms(&["long"])
    );
}

#[test]
fn load_line_with_name_alone_declares_empty_body() {
    let mut corpus = SymCorpus::new();
    corpus.open_file("a.symtypes");
    corpus.load_line("s#opaque");
    let file = corpus.file(0);
    assert!(file.declares("s#opaque"));
    assert_eq!(
        SymCorpus::get_type_tokens(&corpus, file, "s#opaque").unwrap(),
        &Vec::<Token>::new()
    );
    assert_eq!(corpus.export_count(), 0);
}

#[test]
fn later_file_takes_over_export() {
    let mut corpus = SymCorpus::new();
    corpus.load_file("a.symtypes", "foo int foo\n");
    corpus.load_file("b.symtypes", "bar int bar\nfoo long foo\n");
    assert_eq!(corpus.file_count(), 2);
    assert_eq!(corpus.export_count(), 2);
    assert_eq!(corpus.export_name(0), "foo");
    assert_eq!(corpus.export_name(1), "bar");
    assert_eq!(corpus.export_file("foo").unwrap().path(), "b.symtypes");
    assert_eq!(corpus.variant_count("foo"), 2);
    // Both files keep the variant that they declared.
    assert_eq!(
        SymCorpus::get_type_tokens(&corpus, corpus.file(0), "foo").unwrap(),
        &atoms(&["int", "foo"])
    );
    assert_eq!(
        SymCorpus::get_type_tokens(&corpus, corpus.file(1), "foo").unwrap(),
        &atoms(&["long", "foo"])
    );
}

#[test]
fn files_share_equal_variants() {
    let mut corpus = SymCorpus::new();
    corpus.load_file("a.symtypes", "s#foo struct foo { }\n");
    corpus.load_file("b.symtypes", "s#foo struct foo { }\n");
    corpus.load_file("c.symtypes", "s#foo struct foo { int x ; }\n");
    assert_eq!(corpus.variant_count("s#foo"), 2);
}

#[test]
fn second_declaration_in_a_file_wins() {
    let mut corpus = SymCorpus::new();
    corpus.load_file("a.symtypes", "foo int foo\nfoo long foo\n");
    assert_eq!(corpus.export_count(), 1);
    assert_eq!(
        SymCorpus::get_type_tokens(&corpus, corpus.file(0), "foo").unwrap(),
        &atoms(&["long", "foo"])
    );
}

#[test]
fn reference_marker_decides_kind() {
    let mut corpus = SymCorpus::new();
    corpus.load_file("a.symtypes", "x # a#b #a ab# s# é#z\n");
    let tokens = SymCorpus::get_type_tokens(&corpus, corpus.file(0), "x").unwrap();
    assert_eq!(
        tokens,
        &vec![
            Token::new_atom("#"),
            Token::new_typeref("a#b"),
            Token::new_atom("#a"),
            Token::new_atom("ab#"),
            Token::new_typeref("s#"),
            Token::new_typeref("é#z"),
        ]
    );
}

#[test]
fn name_without_marker_is_an_export() {
    let mut corpus = SymCorpus::new();
    corpus.load_file("a.symtypes", "x int x\ns#x struct x { }\n#y int y\nab# int z\n");
    assert_eq!(corpus.export_count(), 3);
    assert_eq!(corpus.export_name(0), "x");
    assert_eq!(corpus.export_name(1), "#y");
    assert_eq!(corpus.export_name(2), "ab#");
    assert!(corpus.export_file("s#x").is_none());
}

#[test]
fn export_at_gives_name_and_file() {
    let mut corpus = SymCorpus::new();
    corpus.load_file("a.symtypes", "foo int foo\n");
    corpus.load_file("b.symtypes", "bar int bar\nfoo long foo\n");
    let (name, file) = corpus.export_at(0);
    assert_eq!(name, "foo");
    assert_eq!(file.path(), "b.symtypes");
    let (name, file) = corpus.export_at(1);
    assert_eq!(name, "bar");
    assert_eq!(file.path(), "b.symtypes");
}

#[test]
fn declare_adds_to_the_file_opened_last() {
    let mut corpus = SymCorpus::new();
    corpus.open_file("a.symtypes");
    corpus.open_file("b.symtypes");
    corpus.declare("foo", atoms(&["int", "foo"]));
    corpus.declare("s#bar", atoms(&["struct", "bar"]));
    assert!(!corpus.file(0).declares("foo"));
    assert!(corpus.file(1).declares("foo"));
    assert!(corpus.file(1).declares("s#bar"));
    assert_eq!(corpus.export_count(), 1);
    assert_eq!(corpus.export_file("foo").unwrap().path(), "b.symtypes");
}

#[test]
fn empty_file_is_loaded_as_a_file_without_declarations() {
    let mut corpus = SymCorpus::new();
    corpus.load_file("a.symtypes", "");
    corpus.load_file("b.symtypes", "\n\n");
    assert_eq!(corpus.file_count(), 2);
    assert_eq!(corpus.export_count(), 0);
    assert_eq!(corpus.file(0).path(), "a.symtypes");
    assert!(!corpus.file(0).declares(""));
}
