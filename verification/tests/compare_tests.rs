use ksymtypes::compare::Comparison;
use ksymtypes::corpus::SymCorpus;
use ksymtypes::token::Token;
use vstd::hash_set::StringHashSet;

fn corpus(files: &[(&str, &str)]) -> SymCorpus {
    let mut corpus = SymCorpus::new();
    for (path, text) in files {
        corpus.load_file(path, text);
    }
    corpus
}

/// The changes as plain triples: name, words of the one side, words of the other.
fn triples(found: &Comparison) -> Vec<(String, Vec<String>, Vec<String>)> {
    let mut all = Vec::new();
    for g in 0..found.changes.len() {
        for (tokens, other_tokens) in found.changes.variants(g).iter() {
            all.push((
                found.changes.name(g).to_string(),
                tokens.iter().map(|t| t.as_str().to_string()).collect(),
                other_tokens.iter().map(|t| t.as_str().to_string()).collect(),
            ));
        }
    }
    all
}

fn words(text: &str) -> Vec<String> {
    text.split_ascii_whitespace().map(|w| w.to_string()).collect()
}

#[test]
fn self_comparison_has_no_changes() {
    let a = corpus(&[
        (
            "a.symtypes",
            "s#foo struct foo { int a ; s#bar * b ; }\ns#bar struct bar { s#foo * f ; }\nfoo int foo ( s#foo )\n",
        ),
        ("b.symtypes", "s#foo struct foo { long a ; }\nbar void bar ( s#foo )\n"),
    ]);
    let found = a.compare_with(&a).unwrap();
    assert!(found.only_in_a.is_empty());
    assert!(found.only_in_b.is_empty());
    assert_eq!(found.changes.len(), 0);
    assert_eq!(found.render(), Vec::<String>::new());
}

#[test]
fn equal_corpora_from_different_loads_have_no_changes() {
    let text = "s#foo struct foo { int a ; }\nfoo int foo ( s#foo )\n";
    let a = corpus(&[("a.symtypes", text)]);
    let b = corpus(&[("other/a.symtypes", text)]);
    let found = a.compare_with(&b).unwrap();
    assert_eq!(found.changes.len(), 0);
}

#[test]
fn self_referencing_type_terminates() {
    let a = corpus(&[(
        "a.symtypes",
        "s#node struct node { s#node * next ; int value ; }\nhead s#node * head\n",
    )]);
    let b = corpus(&[(
        "a.symtypes",
        "s#node struct node { s#node * next ; long value ; }\nhead s#node * head\n",
    )]);
    let found = a.compare_with(&b).unwrap();
    assert_eq!(
        triples(&found),
        vec![(
            "s#node".to_string(),
            words("struct node { s#node * next ; int value ; }"),
            words("struct node { s#node * next ; long value ; }"),
        )]
    );
}

#[test]
fn mutually_referencing_types_terminate() {
    let a = corpus(&[(
        "a.symtypes",
        "s#a struct a { s#b * b ; }\ns#b struct b { s#c * c ; }\ns#c struct c { s#a * a ; int x ; }\nroot s#a root\n",
    )]);
    let b = corpus(&[(
        "a.symtypes",
        "s#a struct a { s#b * b ; }\ns#b struct b { s#c * c ; }\ns#c struct c { s#a * a ; char x ; }\nroot s#a root\n",
    )]);
    let found = a.compare_with(&b).unwrap();
    assert_eq!(
        triples(&found),
        vec![(
            "s#c".to_string(),
            words("struct c { s#a * a ; int x ; }"),
            words("struct c { s#a * a ; char x ; }"),
        )]
    );
}

#[test]
fn change_in_length_is_recorded() {
    let a = corpus(&[("a.symtypes", "foo int foo ( int )\n")]);
    let b = corpus(&[("a.symtypes", "foo int foo ( int , int )\n")]);
    let found = a.compare_with(&b).unwrap();
    assert_eq!(
        triples(&found),
        vec![(
            "foo".to_string(),
            words("int foo ( int )"),
            words("int foo ( int , int )"),
        )]
    );
}

#[test]
fn shorter_side_that_is_a_prefix_is_recorded() {
    let a = corpus(&[("a.symtypes", "foo int foo\n")]);
    let b = corpus(&[("a.symtypes", "foo int\n")]);
    let found = a.compare_with(&b).unwrap();
    assert_eq!(
        triples(&found),
        vec![("foo".to_string(), words("int foo"), words("int"))]
    );
}

#[test]
fn change_in_atom_is_recorded() {
    let a = corpus(&[("a.symtypes", "foo int foo ( int )\n")]);
    let b = corpus(&[("a.symtypes", "foo int foo ( long )\n")]);
    let found = a.compare_with(&b).unwrap();
    assert_eq!(
        triples(&found),
        vec![(
            "foo".to_string(),
            words("int foo ( int )"),
            words("int foo ( long )"),
        )]
    );
}

#[test]
fn change_in_reference_target_is_recorded() {
    let a = corpus(&[(
        "a.symtypes",
        "s#x struct x { }\ns#y struct y { }\nfoo int foo ( s#x )\n",
    )]);
    let b = corpus(&[(
        "a.symtypes",
        "s#x struct x { }\ns#y struct y { }\nfoo int foo ( s#y )\n",
    )]);
    let found = a.compare_with(&b).unwrap();
    assert_eq!(
        triples(&found),
        vec![(
            "foo".to_string(),
            words("int foo ( s#x )"),
            words("int foo ( s#y )"),
        )]
    );
}

#[test]
fn atom_against_reference_is_a_change() {
    // In B the word `s#x` stands where A has the atom `x`; the types behind
    // differing words are not looked at.
    let a = corpus(&[("a.symtypes", "s#x struct x { int a ; }\nfoo int foo ( x )\n")]);
    let b = corpus(&[("a.symtypes", "s#x struct x { long a ; }\nfoo int foo ( s#x )\n")]);
    let found = a.compare_with(&b).unwrap();
    assert_eq!(
        triples(&found),
        vec![(
            "foo".to_string(),
            words("int foo ( x )"),
            words("int foo ( s#x )"),
        )]
    );
}

#[test]
fn nested_change_is_found_behind_a_changed_type() {
    // The outer declaration differs at its end; the reference before it is
    // followed all the same, and the inner change is recorded first.
    let a = corpus(&[(
        "a.symtypes",
        "s#in struct in { int a ; }\ns#out struct out { s#in i ; int tail ; }\nfoo int foo ( s#out )\n",
    )]);
    let b = corpus(&[(
        "a.symtypes",
        "s#in struct in { long a ; }\ns#out struct out { s#in i ; long tail ; }\nfoo int foo ( s#out )\n",
    )]);
    let found = a.compare_with(&b).unwrap();
    assert_eq!(
        triples(&found),
        vec![
            (
                "s#in".to_string(),
                words("struct in { int a ; }"),
                words("struct in { long a ; }"),
            ),
            (
                "s#out".to_string(),
                words("struct out { s#in i ; int tail ; }"),
                words("struct out { s#in i ; long tail ; }"),
            ),
        ]
    );
}

#[test]
fn reference_behind_an_earlier_difference_is_still_followed() {
    let a = corpus(&[(
        "a.symtypes",
        "s#in struct in { int a ; }\nfoo int foo ( s#in )\n",
    )]);
    let b = corpus(&[(
        "a.symtypes",
        "s#in struct in { long a ; }\nfoo long foo ( s#in )\n",
    )]);
    let found = a.compare_with(&b).unwrap();
    assert_eq!(
        triples(&found),
        vec![
            (
                "s#in".to_string(),
                words("struct in { int a ; }"),
                words("struct in { long a ; }"),
            ),
            (
                "foo".to_string(),
                words("int foo ( s#in )"),
                words("long foo ( s#in )"),
            ),
        ]
    );
}

#[test]
fn reference_past_the_shorter_side_is_not_followed() {
    // `s#in` stands at a position that B does not have, so it is not compared.
    let a = corpus(&[(
        "a.symtypes",
        "s#in struct in { int a ; }\nfoo int foo s#in\n",
    )]);
    let b = corpus(&[(
        "a.symtypes",
        "s#in struct in { long a ; }\nfoo int foo\n",
    )]);
    let found = a.compare_with(&b).unwrap();
    assert_eq!(
        triples(&found),
        vec![("foo".to_string(), words("int foo s#in"), words("int foo"))]
    );
}

#[test]
fn same_change_from_two_exports_is_recorded_once() {
    let a = corpus(&[(
        "a.symtypes",
        "s#in struct in { int a ; }\nfoo int foo ( s#in )\nbar int bar ( s#in )\n",
    )]);
    let b = corpus(&[(
        "a.symtypes",
        "s#in struct in { long a ; }\nfoo int foo ( s#in )\nbar int bar ( s#in )\n",
    )]);
    let found = a.compare_with(&b).unwrap();
    assert_eq!(
        triples(&found),
        vec![(
            "s#in".to_string(),
            words("struct in { int a ; }"),
            words("struct in { long a ; }"),
        )]
    );
}

#[test]
fn different_changes_of_one_name_are_kept_apart() {
    // Two files of A use different variants of `s#in`; B has one.
    let a = corpus(&[
        ("f.symtypes", "s#in struct in { int a ; }\nfoo int foo ( s#in )\n"),
        ("g.symtypes", "s#in struct in { char a ; }\nbar int bar ( s#in )\n"),
    ]);
    let b = corpus(&[
        ("f.symtypes", "s#in struct in { long a ; }\nfoo int foo ( s#in )\n"),
        ("g.symtypes", "s#in struct in { long a ; }\nbar int bar ( s#in )\n"),
    ]);
    let found = a.compare_with(&b).unwrap();
    assert_eq!(found.changes.len(), 1);
    assert_eq!(found.changes.name(0), "s#in");
    assert_eq!(
        triples(&found),
        vec![
            (
                "s#in".to_string(),
                words("struct in { int a ; }"),
                words("struct in { long a ; }"),
            ),
            (
                "s#in".to_string(),
                words("struct in { char a ; }"),
                words("struct in { long a ; }"),
            ),
        ]
    );
}

#[test]
fn exports_of_one_side_only_are_listed_and_not_compared() {
    let a = corpus(&[(
        "a.symtypes",
        "s#in struct in { int a ; }\nonly_a int only_a ( s#in )\nboth int both\nalso_a void also_a\n",
    )]);
    let b = corpus(&[(
        "a.symtypes",
        "s#in struct in { long a ; }\nonly_b int only_b ( s#in )\nboth int both\n",
    )]);
    let found = a.compare_with(&b).unwrap();
    assert_eq!(found.only_in_a, vec!["only_a", "also_a"]);
    assert_eq!(found.only_in_b, vec!["only_b"]);
    // `s#in` differs, but no export of both sides leads to it.
    assert_eq!(found.changes.len(), 0);
}

#[test]
fn comparison_uses_the_file_of_each_export() {
    // The same name has different variants in different files; each export is
    // compared within the file that declares it.
    let a = corpus(&[
        ("f.symtypes", "s#in struct in { int a ; }\nfoo int foo ( s#in )\n"),
        ("g.symtypes", "s#in struct in { long a ; }\nbar int bar ( s#in )\n"),
    ]);
    let b = corpus(&[
        ("f.symtypes", "s#in struct in { int a ; }\nfoo int foo ( s#in )\n"),
        ("g.symtypes", "s#in struct in { long a ; }\nbar int bar ( s#in )\n"),
    ]);
    let found = a.compare_with(&b).unwrap();
    assert_eq!(found.changes.len(), 0);
}

#[test]
fn unknown_type_fails_the_comparison() {
    let a = corpus(&[("a.symtypes", "foo int foo ( s#gone )\n")]);
    let b = corpus(&[("b.symtypes", "s#gone struct gone { }\nfoo int foo ( s#gone )\n")]);
    let err = a.compare_with(&b).err().unwrap();
    assert_eq!(err.name, "s#gone");
    assert_eq!(err.path, "a.symtypes");
    assert_eq!(err.message(), "Type s#gone is not known in file a.symtypes");

    let err = b.compare_with(&a).err().unwrap();
    assert_eq!(err.name, "s#gone");
    assert_eq!(err.path, "a.symtypes");
}

#[test]
fn unknown_type_that_no_walk_comes_to_does_no_harm() {
    // The dangling reference stands where the two sides differ, so that no walk
    // follows it.
    let a = corpus(&[("a.symtypes", "foo int foo ( s#gone )\n")]);
    let b = corpus(&[("a.symtypes", "foo int foo ( s#lost )\n")]);
    let found = a.compare_with(&b).unwrap();
    assert_eq!(found.changes.len(), 1);
}

#[test]
fn compare_types_passes_over_processed_names() {
    let a = corpus(&[(
        "a.symtypes",
        "s#in struct in { int a ; }\nfoo int foo ( s#in )\n",
    )]);
    let b = corpus(&[(
        "a.symtypes",
        "s#in struct in { long a ; }\nfoo long foo ( s#in )\n",
    )]);
    let mut changes = ksymtypes::changes::TypeChanges::new();
    let mut processed = StringHashSet::new();
    processed.insert("s#in".to_string());
    let res = a.compare_types(&b, a.file(0), b.file(0), "foo", &mut processed, &mut changes);
    assert!(res.is_ok());
    assert_eq!(changes.len(), 1);
    assert_eq!(changes.name(0), "foo");
    assert!(processed.contains("foo"));
    assert_eq!(processed.len(), 2);

    // A second walk from the same root with the same set does nothing.
    let res = a.compare_types(&b, a.file(0), b.file(0), "foo", &mut processed, &mut changes);
    assert!(res.is_ok());
    assert_eq!(changes.len(), 1);
    assert_eq!(processed.len(), 2);
}

#[test]
fn compare_types_marks_every_name_of_the_walk() {
    let text = "s#a struct a { s#b b ; s#c c ; }\ns#b struct b { s#c c ; }\ns#c struct c { }\ns#d struct d { }\nfoo int foo ( s#a )\n";
    let a = corpus(&[("a.symtypes", text)]);
    let mut changes = ksymtypes::changes::TypeChanges::new();
    let mut processed = StringHashSet::new();
    let res = a.compare_types(&a, a.file(0), a.file(0), "foo", &mut processed, &mut changes);
    assert!(res.is_ok());
    assert_eq!(processed.len(), 4);
    assert!(processed.contains("foo"));
    assert!(processed.contains("s#a"));
    assert!(processed.contains("s#b"));
    assert!(processed.contains("s#c"));
    assert!(!processed.contains("s#d"));
    assert_eq!(changes.len(), 0);
}

#[test]
fn record_type_change_keeps_each_triple_once() {
    let one = vec![Token::new_atom("int")];
    let two = vec![Token::new_atom("long")];
    let three = vec![Token::new_atom("char")];
    let mut changes = ksymtypes::changes::TypeChanges::new();
    SymCorpus::record_type_change("t#x", &one, &two, &mut changes);
    SymCorpus::record_type_change("t#x", &one, &two, &mut changes);
    assert_eq!(changes.len(), 1);
    assert_eq!(changes.variants(0).len(), 1);
    SymCorpus::record_type_change("t#x", &one, &three, &mut changes);
    SymCorpus::record_type_change("t#x", &two, &one, &mut changes);
    SymCorpus::record_type_change("t#y", &one, &two, &mut changes);
    SymCorpus::record_type_change("t#x", &one, &three, &mut changes);
    assert_eq!(changes.len(), 2);
    assert_eq!(changes.name(0), "t#x");
    assert_eq!(changes.name(1), "t#y");
    assert_eq!(changes.variants(0).len(), 3);
    assert_eq!(changes.variants(1).len(), 1);
    assert_eq!(changes.variants(0)[1], (&one, &three));
    assert_eq!(changes.variants(0)[2], (&two, &one));
}
