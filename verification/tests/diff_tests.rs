use ksymtypes::diff::unified;
use ksymtypes::render::format_type_change;
use ksymtypes::token::Token;

fn lines(all: &[&str]) -> Vec<String> {
    all.iter().map(|line| line.to_string()).collect()
}

fn atoms(text: &str) -> Vec<Token> {
    text.split_ascii_whitespace().map(Token::new_atom).collect()
}

#[test]
fn diff_of_nothing_is_empty() {
    assert_eq!(unified(&lines(&[]), &lines(&[])), lines(&[]));
}

#[test]
fn diff_of_equal_sides_keeps_every_line() {
    let side = lines(&["a", "b", "", "c"]);
    assert_eq!(unified(&side, &side), lines(&[" a", " b", " ", " c"]));
}

#[test]
fn diff_against_nothing_removes_or_adds_all() {
    assert_eq!(unified(&lines(&["a", "b"]), &lines(&[])), lines(&["-a", "-b"]));
    assert_eq!(unified(&lines(&[]), &lines(&["a", "b"])), lines(&["+a", "+b"]));
}

#[test]
fn diff_shows_a_changed_line_as_removed_then_added() {
    assert_eq!(
        unified(&lines(&["a", "b", "c"]), &lines(&["a", "x", "c"])),
        lines(&[" a", "-b", "+x", " c"])
    );
}

#[test]
fn diff_shows_an_added_line() {
    assert_eq!(
        unified(&lines(&["a", "c"]), &lines(&["a", "b", "c"])),
        lines(&[" a", "+b", " c"])
    );
}

#[test]
fn diff_shows_a_removed_line() {
    assert_eq!(
        unified(&lines(&["a", "b", "c"]), &lines(&["a", "c"])),
        lines(&[" a", "-b", " c"])
    );
}

#[test]
fn diff_keeps_the_longest_common_part() {
    // Keeping `b c d` is better than keeping the `a` that comes late in the
    // second side.
    assert_eq!(
        unified(&lines(&["a", "b", "c", "d"]), &lines(&["b", "c", "d", "a"])),
        lines(&["-a", " b", " c", " d", "+a"])
    );
}

#[test]
fn diff_of_sides_without_common_line() {
    assert_eq!(
        unified(&lines(&["a", "b"]), &lines(&["x", "y"])),
        lines(&["-a", "-b", "+x", "+y"])
    );
}

#[test]
fn diff_tells_of_every_line_of_both_sides() {
    let a = lines(&["1", "2", "3", "2", "1", "5"]);
    let b = lines(&["2", "1", "2", "3", "5", "5"]);
    let shown = unified(&a, &b);
    let first: Vec<String> = shown
        .iter()
        .filter(|line| !line.starts_with('+'))
        .map(|line| line[1..].to_string())
        .collect();
    let second: Vec<String> = shown
        .iter()
        .filter(|line| !line.starts_with('-'))
        .map(|line| line[1..].to_string())
        .collect();
    assert_eq!(first, a);
    assert_eq!(second, b);
    let kept = shown.iter().filter(|line| line.starts_with(' ')).count();
    assert_eq!(kept, 4);
}

#[test]
fn type_change_is_name_and_diff_of_pretty_forms() {
    let shown = format_type_change(
        "s#test",
        &atoms("struct test { int a ; long b ; }"),
        &atoms("struct test { int a ; char b ; int c ; }"),
    );
    assert_eq!(
        shown,
        lines(&[
            "s#test",
            " struct test {",
            " \tint a;",
            "-\tlong b;",
            "+\tchar b;",
            "+\tint c;",
            " }",
        ])
    );
}

#[test]
fn type_change_of_equal_sides_shows_no_marks() {
    let shown = format_type_change("t#u8", &atoms("typedef char u8"), &atoms("typedef char u8"));
    assert_eq!(shown, lines(&["t#u8", " typedef char u8"]));
}
