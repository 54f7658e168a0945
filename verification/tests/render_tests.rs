use ksymtypes::corpus::SymCorpus;

fn corpus(files: &[(&str, &str)]) -> SymCorpus {
    let mut corpus = SymCorpus::new();
    for (path, text) in files {
        corpus.load_file(path, text);
    }
    corpus
}

fn lines(all: &[&str]) -> Vec<String> {
    all.iter().map(|line| line.to_string()).collect()
}

#[test]
fn render_lists_exports_then_changes() {
    let a = corpus(&[(
        "a.symtypes",
        "s#in struct in { int a ; }\nonly_a int only_a\nfoo int foo ( s#in )\n",
    )]);
    let b = corpus(&[(
        "a.symtypes",
        "s#in struct in { long a ; }\nfoo long foo ( s#in )\nonly_b int only_b\nlast_b int last_b\n",
    )]);
    let found = a.compare_with(&b).unwrap();
    assert_eq!(
        found.render(),
        lines(&[
            "Export only_a is present in A but not in B",
            "Export only_b is present in B but not in A",
            "Export last_b is present in B but not in A",
            "s#in",
            " struct in {",
            "-\tint a;",
            "+\tlong a;",
            " }",
            "foo",
            "-int foo ( s#in )",
            "+long foo ( s#in )",
        ])
    );
}

#[test]
fn render_shows_all_changes_of_a_name_together() {
    let a = corpus(&[
        ("f.symtypes", "t#x typedef int x\nfoo t#x foo\n"),
        ("g.symtypes", "t#y typedef int y\nbar t#y bar\n"),
        ("h.symtypes", "t#x typedef char x\nbaz t#x baz\n"),
    ]);
    let b = corpus(&[
        ("f.symtypes", "t#x typedef long x\nfoo t#x foo\n"),
        ("g.symtypes", "t#y typedef long y\nbar t#y bar\n"),
        ("h.symtypes", "t#x typedef long x\nbaz t#x baz\n"),
    ]);
    let found = a.compare_with(&b).unwrap();
    assert_eq!(
        found.render(),
        lines(&[
            "t#x",
            "-typedef int x",
            "+typedef long x",
            "t#x",
            "-typedef char x",
            "+typedef long x",
            "t#y",
            "-typedef int y",
            "+typedef long y",
        ])
    );
}

#[test]
fn render_of_no_difference_is_empty() {
    let a = corpus(&[("a.symtypes", "foo int foo\n")]);
    let found = a.compare_with(&a).unwrap();
    assert_eq!(found.render(), lines(&[]));
}
