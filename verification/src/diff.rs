//! The diff renderer: sets two sequences of lines against each other and tells
//! of every line whether both have it, or only the first, or only the second.

use vstd::prelude::*;
use vstd::string::StringExecFns;

verus! {

/// One line of a diff.
pub enum Edit {
    /// A line that both sides have.
    Keep(Seq<char>),
    /// A line that only the first side has.
    Remove(Seq<char>),
    /// A line that only the second side has.
    Add(Seq<char>),
}

impl Edit {
    /// The line as it is shown: behind a space where both sides have it, behind
    /// `-` where only the first has it, behind `+` where only the second has
    /// it.
    pub open spec fn marked(self) -> Seq<char> {
        match self {
            Edit::Keep(line) => seq![' '] + line,
            Edit::Remove(line) => seq!['-'] + line,
            Edit::Add(line) => seq!['+'] + line,
        }
    }
}

/// The length of the longest sequence of lines that `a` from line `i` on and
/// `b` from line `j` on have in common, in this order.
pub open spec fn common(a: Seq<Seq<char>>, b: Seq<Seq<char>>, i: int, j: int) -> nat
    decreases a.len() - i + b.len() - j,
{
    if i < 0 || j < 0 || i >= a.len() || j >= b.len() {
        0
    } else if a[i] == b[j] {
        1 + common(a, b, i + 1, j + 1)
    } else if common(a, b, i + 1, j) >= common(a, b, i, j + 1) {
        common(a, b, i + 1, j)
    } else {
        common(a, b, i, j + 1)
    }
}

/// The diff of `a` from line `i` on against `b` from line `j` on. A line that
/// stands on both sides is kept; else the line goes whose going leaves more in
/// common, that of the first side where both leave as much.
pub open spec fn script(a: Seq<Seq<char>>, b: Seq<Seq<char>>, i: int, j: int) -> Seq<Edit>
    decreases a.len() - i + b.len() - j,
{
    if i < 0 || j < 0 || i > a.len() || j > b.len() || (i == a.len() && j == b.len()) {
        Seq::empty()
    } else if i < a.len() && j < b.len() && a[i] == b[j] {
        seq![Edit::Keep(a[i])] + script(a, b, i + 1, j + 1)
    } else if i < a.len() && (j >= b.len() || common(a, b, i + 1, j) >= common(a, b, i, j + 1)) {
        seq![Edit::Remove(a[i])] + script(a, b, i + 1, j)
    } else {
        seq![Edit::Add(b[j])] + script(a, b, i, j + 1)
    }
}

/// The lines of a diff as they are shown.
pub open spec fn shown(edits: Seq<Edit>) -> Seq<Seq<char>> {
    Seq::new(edits.len(), |k: int| edits[k].marked())
}

/// The diff of `a` against `b`, as it is shown.
pub open spec fn diff_lines(a: Seq<Seq<char>>, b: Seq<Seq<char>>) -> Seq<Seq<char>> {
    shown(script(a, b, 0, 0))
}

/// The lines of the first side that a diff tells of: those kept and those
/// removed.
pub open spec fn first_side(edits: Seq<Edit>) -> Seq<Seq<char>>
    decreases edits.len(),
{
    if edits.len() == 0 {
        Seq::empty()
    } else {
        match edits.first() {
            Edit::Keep(line) => seq![line] + first_side(edits.drop_first()),
            Edit::Remove(line) => seq![line] + first_side(edits.drop_first()),
            Edit::Add(_) => first_side(edits.drop_first()),
        }
    }
}

/// The lines of the second side that a diff tells of: those kept and those
/// added.
pub open spec fn second_side(edits: Seq<Edit>) -> Seq<Seq<char>>
    decreases edits.len(),
{
    if edits.len() == 0 {
        Seq::empty()
    } else {
        match edits.first() {
            Edit::Keep(line) => seq![line] + second_side(edits.drop_first()),
            Edit::Remove(_) => second_side(edits.drop_first()),
            Edit::Add(line) => seq![line] + second_side(edits.drop_first()),
        }
    }
}

/// The number of lines that a diff keeps.
pub open spec fn kept(edits: Seq<Edit>) -> nat
    decreases edits.len(),
{
    if edits.len() == 0 {
        0
    } else {
        match edits.first() {
            Edit::Keep(_) => 1 + kept(edits.drop_first()),
            _ => kept(edits.drop_first()),
        }
    }
}

/// What two sides have in common is no longer than either.
pub proof fn lemma_common_bounded(a: Seq<Seq<char>>, b: Seq<Seq<char>>, i: int, j: int)
    requires
        0 <= i <= a.len(),
        0 <= j <= b.len(),
    ensures
        common(a, b, i, j) <= a.len() - i,
        common(a, b, i, j) <= b.len() - j,
    decreases a.len() - i + b.len() - j,
{
    if i < a.len() && j < b.len() {
        lemma_common_bounded(a, b, i + 1, j + 1);
        lemma_common_bounded(a, b, i + 1, j);
        lemma_common_bounded(a, b, i, j + 1);
    }
}

/// A diff tells of every line of both sides, in their order, and keeps as many
/// lines as the two sides have in common.
pub proof fn lemma_script_sides(a: Seq<Seq<char>>, b: Seq<Seq<char>>, i: int, j: int)
    requires
        0 <= i <= a.len(),
        0 <= j <= b.len(),
    ensures
        first_side(script(a, b, i, j)) == a.skip(i),
        second_side(script(a, b, i, j)) == b.skip(j),
        kept(script(a, b, i, j)) == common(a, b, i, j),
    decreases a.len() - i + b.len() - j,
{
    let edits = script(a, b, i, j);
    if i < a.len() || j < b.len() {
        if i < a.len() && j < b.len() && a[i] == b[j] {
            lemma_script_sides(a, b, i + 1, j + 1);
            assert(edits.drop_first() =~= script(a, b, i + 1, j + 1));
        } else if i < a.len() && (j >= b.len() || common(a, b, i + 1, j) >= common(a, b, i, j + 1)) {
            lemma_script_sides(a, b, i + 1, j);
            assert(edits.drop_first() =~= script(a, b, i + 1, j));
        } else {
            lemma_script_sides(a, b, i, j + 1);
            assert(edits.drop_first() =~= script(a, b, i, j + 1));
            if i >= a.len() {
                lemma_common_bounded(a, b, i, j + 1);
            }
        }
    }
}

/// The diff of two sequences of lines tells of every line of both, in their
/// order.
pub proof fn lemma_diff_sides(a: Seq<Seq<char>>, b: Seq<Seq<char>>)
    ensures
        first_side(script(a, b, 0, 0)) == a,
        second_side(script(a, b, 0, 0)) == b,
{
    lemma_script_sides(a, b, 0, 0);
}

/// Whether `xs` and `ys` pick equally many lines, `xs` from line `i` of `a` on
/// and `ys` from line `j` of `b` on, both in rising order, such that every
/// line picked from `a` equals the line picked with it from `b`.
pub open spec fn is_common(
    a: Seq<Seq<char>>,
    b: Seq<Seq<char>>,
    i: int,
    j: int,
    xs: Seq<int>,
    ys: Seq<int>,
) -> bool {
    &&& xs.len() == ys.len()
    &&& forall|k: int| 0 <= k < xs.len() ==> i <= #[trigger] xs[k] < a.len()
    &&& forall|k: int| 0 <= k < ys.len() ==> j <= #[trigger] ys[k] < b.len()
    &&& forall|k: int, l: int|
        #![trigger xs[k], xs[l]]
        0 <= k < l < xs.len() ==> xs[k] < xs[l] && ys[k] < ys[l]
    &&& forall|k: int| 0 <= k < xs.len() ==> a[#[trigger] xs[k]] == b[ys[k]]
}

/// No choice of common lines is longer than what `common` tells.
pub proof fn lemma_common_is_longest(
    a: Seq<Seq<char>>,
    b: Seq<Seq<char>>,
    i: int,
    j: int,
    xs: Seq<int>,
    ys: Seq<int>,
)
    requires
        0 <= i,
        0 <= j,
        is_common(a, b, i, j, xs, ys),
    ensures
        xs.len() <= common(a, b, i, j),
    decreases a.len() - i + b.len() - j,
{
    if xs.len() > 0 {
        if a[i] == b[j] {
            let xr = xs.drop_first();
            let yr = ys.drop_first();
            assert forall|k: int| 0 <= k < yr.len() implies j + 1 <= #[trigger] yr[k]
                < b.len() by {
                assert(xs[0] < xs[k + 1]);
            }
            lemma_common_is_longest(a, b, i + 1, j + 1, xr, yr);
        } else if xs[0] > i {
            lemma_common_is_longest(a, b, i + 1, j, xs, ys);
        } else {
            assert forall|k: int| 0 <= k < ys.len() implies j + 1 <= #[trigger] ys[k]
                < b.len() by {
                if k > 0 {
                    assert(xs[0] < xs[k]);
                }
            }
            lemma_common_is_longest(a, b, i, j + 1, xs, ys);
        }
    }
}

/// No diff could keep more lines: whatever lines two sides have in common, in
/// their order, the diff keeps as many.
pub proof fn lemma_diff_keeps_most(
    a: Seq<Seq<char>>,
    b: Seq<Seq<char>>,
    xs: Seq<int>,
    ys: Seq<int>,
)
    requires
        is_common(a, b, 0, 0, xs, ys),
    ensures
        xs.len() <= kept(script(a, b, 0, 0)),
{
    lemma_common_is_longest(a, b, 0, 0, xs, ys);
    lemma_script_sides(a, b, 0, 0);
}

/// The diff of a sequence of lines against itself keeps every line.
pub proof fn lemma_diff_same(a: Seq<Seq<char>>, i: int)
    requires
        0 <= i <= a.len(),
    ensures
        script(a, a, i, i) == Seq::new((a.len() - i) as nat, |k: int| Edit::Keep(a[i + k])),
    decreases a.len() - i,
{
    if i < a.len() {
        lemma_diff_same(a, i + 1);
    }
}

/// A table of the lengths in common: row `i`, column `j` for lines `i` and `j`
/// on.
spec fn tabulated(
    table: Seq<Vec<usize>>,
    a: Seq<Seq<char>>,
    b: Seq<Seq<char>>,
    from_row: int,
    from_col: int,
) -> bool {
    &&& table.len() == a.len()
    &&& forall|i: int| 0 <= i < a.len() ==> (#[trigger] table[i])@.len() == b.len()
    &&& forall|i: int, j: int|
        0 <= i < a.len() && 0 <= j < b.len() && (i > from_row || (i == from_row && j >= from_col))
            ==> (#[trigger] table[i]@[j]) == common(a, b, i, j)
}

/// The length in common that the table holds for lines `i` and `j` on, where
/// past the end of either side nothing is in common.
fn lookup(table: &Vec<Vec<usize>>, i: usize, j: usize, Ghost(a): Ghost<Seq<Seq<char>>>, Ghost(b): Ghost<
    Seq<Seq<char>>,
>, Ghost(from_row): Ghost<int>, Ghost(from_col): Ghost<int>) -> (length: usize)
    requires
        tabulated(table@, a, b, from_row, from_col),
        i <= a.len(),
        j <= b.len(),
        i > from_row || (i == from_row && j >= from_col),
    ensures
        length == common(a, b, i as int, j as int),
{
    if i < table.len() && j < table[i].len() {
        table[i][j]
    } else {
        0
    }
}

/// A row of `n` zeros.
fn zeros(n: usize) -> (row: Vec<usize>)
    ensures
        row@.len() == n,
        forall|j: int| 0 <= j < n ==> row@[j] == 0,
{
    let mut row: Vec<usize> = Vec::new();
    while row.len() < n
        invariant
            row@.len() <= n,
            forall|j: int| 0 <= j < row@.len() ==> row@[j] == 0,
        decreases n - row@.len(),
    {
        row.push(0);
    }
    row
}

/// Sets `a` against `b` and shows every line of both: behind a space a line
/// that both have, behind `-` one that only `a` has, behind `+` one that only
/// `b` has.
pub fn unified(a: &Vec<String>, b: &Vec<String>) -> (lines: Vec<String>)
    ensures
        lines.deep_view() == diff_lines(a.deep_view(), b.deep_view()),
{
    let ghost sa = a.deep_view();
    let ghost sb = b.deep_view();
    let n: usize = a.len();
    let m: usize = b.len();

    // Tabulate what is in common, from the ends of both sides backwards.
    let mut table: Vec<Vec<usize>> = Vec::new();
    while table.len() < n
        invariant
            table@.len() <= n,
            forall|i: int| 0 <= i < table@.len() ==> (#[trigger] table@[i])@.len() == m,
        decreases n - table@.len(),
    {
        table.push(zeros(m));
    }
    let mut i: usize = n;
    while i > 0
        invariant
            i <= n,
            n == a.len(),
            m == b.len(),
            sa == a.deep_view(),
            sb == b.deep_view(),
            tabulated(table@, sa, sb, i as int, 0),
        decreases i,
    {
        i -= 1;
        let mut j: usize = m;
        while j > 0
            invariant
                i < n,
                j <= m,
                n == a.len(),
                m == b.len(),
                sa == a.deep_view(),
                sb == b.deep_view(),
                tabulated(table@, sa, sb, i as int, j as int),
            decreases j,
        {
            j -= 1;
            let length: usize = if a[i] == b[j] {
                proof {
                    lemma_common_bounded(sa, sb, i + 1, j + 1);
                }
                lookup(&table, i + 1, j + 1, Ghost(sa), Ghost(sb), Ghost(i as int), Ghost(j + 1))
                    + 1
            } else {
                let below: usize = lookup(
                    &table,
                    i + 1,
                    j,
                    Ghost(sa),
                    Ghost(sb),
                    Ghost(i as int),
                    Ghost(j + 1),
                );
                let beside: usize = lookup(
                    &table,
                    i,
                    j + 1,
                    Ghost(sa),
                    Ghost(sb),
                    Ghost(i as int),
                    Ghost(j + 1),
                );
                if below >= beside {
                    below
                } else {
                    beside
                }
            };
            table[i].set(j, length);
        }
    }

    // Follow the table from the start of both sides.
    let mut lines: Vec<String> = Vec::new();
    let mut i: usize = 0;
    let mut j: usize = 0;
    let ghost mut told: Seq<Edit> = Seq::empty();
    while i < n || j < m
        invariant
            i <= n,
            j <= m,
            n == a.len(),
            m == b.len(),
            sa == a.deep_view(),
            sb == b.deep_view(),
            tabulated(table@, sa, sb, 0, 0),
            lines.deep_view() == shown(told),
            told + script(sa, sb, i as int, j as int) == script(sa, sb, 0, 0),
        decreases n - i + m - j,
    {
        let ghost shown_before = lines.deep_view();
        if i < n && j < m && a[i] == b[j] {
            let mut text = String::from_str(" ");
            text.append(a[i].as_str());
            lines.push(text);
            proof {
                reveal_strlit(" ");
                let edit = Edit::Keep(sa[i as int]);
                assert(text@ =~= edit.marked());
                assert(lines.deep_view() =~= shown_before.push(text@));
                told = told.push(edit);
            }
            i += 1;
            j += 1;
        } else if i < n && (j >= m || lookup(
            &table,
            i + 1,
            j,
            Ghost(sa),
            Ghost(sb),
            Ghost(0),
            Ghost(0),
        ) >= lookup(&table, i, j + 1, Ghost(sa), Ghost(sb), Ghost(0), Ghost(0))) {
            let mut text = String::from_str("-");
            text.append(a[i].as_str());
            lines.push(text);
            proof {
                reveal_strlit("-");
                let edit = Edit::Remove(sa[i as int]);
                assert(text@ =~= edit.marked());
                assert(lines.deep_view() =~= shown_before.push(text@));
                told = told.push(edit);
            }
            i += 1;
        } else {
            let mut text = String::from_str("+");
            text.append(b[j].as_str());
            lines.push(text);
            proof {
                reveal_strlit("+");
                let edit = Edit::Add(sb[j as int]);
                assert(text@ =~= edit.marked());
                assert(lines.deep_view() =~= shown_before.push(text@));
                told = told.push(edit);
            }
            j += 1;
        }
    }
    lines
}

} // verus!
