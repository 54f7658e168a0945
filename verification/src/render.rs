//! The text of a comparison: the exports that only one side has, and for every
//! changed type the diff of its two pretty-printed declarations.

use vstd::prelude::*;
use vstd::string::StringExecFns;
use crate::changes::ChangeSpec;
use crate::compare::Comparison;
use crate::diff::diff_lines;
use crate::diff::unified;
use crate::pretty::pretty;
use crate::pretty::pretty_format_type;
use crate::token::Token;
use crate::token::TokenSpec;

verus! {

/// The text of one change: the name of the type, then the diff of its
/// declaration on the one side against that on the other, both pretty-printed.
pub open spec fn change_text(
    name: Seq<char>,
    tokens: Seq<TokenSpec>,
    other_tokens: Seq<TokenSpec>,
) -> Seq<Seq<char>> {
    seq![name] + diff_lines(pretty(tokens), pretty(other_tokens))
}

/// The line for an export that only A has.
pub open spec fn only_in_a_line(name: Seq<char>) -> Seq<char> {
    "Export "@ + name + " is present in A but not in B"@
}

/// The line for an export that only B has.
pub open spec fn only_in_b_line(name: Seq<char>) -> Seq<char> {
    "Export "@ + name + " is present in B but not in A"@
}

/// The texts of the first `upto` changes of one type, one after the other.
pub open spec fn group_text(group: ChangeSpec, upto: int) -> Seq<Seq<char>>
    decreases upto,
{
    if upto <= 0 {
        Seq::empty()
    } else {
        group_text(group, upto - 1) + change_text(
            group.name,
            group.variants[upto - 1].0,
            group.variants[upto - 1].1,
        )
    }
}

/// The texts of the changes of the first `upto` types, one after the other.
pub open spec fn changes_text(groups: Seq<ChangeSpec>, upto: int) -> Seq<Seq<char>>
    decreases upto,
{
    if upto <= 0 {
        Seq::empty()
    } else {
        changes_text(groups, upto - 1) + group_text(
            groups[upto - 1],
            groups[upto - 1].variants.len() as int,
        )
    }
}

/// The text of a comparison: a line for every export that only A has, a line
/// for every export that only B has, then the texts of all changes.
pub open spec fn rendered(
    only_in_a: Seq<Seq<char>>,
    only_in_b: Seq<Seq<char>>,
    groups: Seq<ChangeSpec>,
) -> Seq<Seq<char>> {
    Seq::new(only_in_a.len(), |i: int| only_in_a_line(only_in_a[i])) + Seq::new(
        only_in_b.len(),
        |i: int| only_in_b_line(only_in_b[i]),
    ) + changes_text(groups, groups.len() as int)
}

/// Renders one change: the name of the type, then the diff of its two
/// pretty-printed declarations.
pub fn format_type_change(name: &str, tokens: &Vec<Token>, other_tokens: &Vec<Token>) -> (lines: Vec<
    String,
>)
    ensures
        lines.deep_view() == change_text(name@, tokens.deep_view(), other_tokens.deep_view()),
{
    let pretty = pretty_format_type(tokens);
    let other_pretty = pretty_format_type(other_tokens);
    let mut diff_output = unified(&pretty, &other_pretty);

    let mut lines: Vec<String> = Vec::new();
    lines.push(String::from_str(name));
    lines.append(&mut diff_output);
    lines
}

impl<'a> Comparison<'a> {
    /// Renders the comparison as lines of text.
    pub fn render(&self) -> (lines: Vec<String>)
        requires
            self.changes.wf(),
        ensures
            lines.deep_view() == rendered(
                self.only_in_a.deep_view(),
                self.only_in_b.deep_view(),
                self.changes@,
            ),
    {
        let ghost in_a = self.only_in_a.deep_view();
        let ghost in_b = self.only_in_b.deep_view();
        let ghost groups = self.changes@;
        let mut lines: Vec<String> = Vec::new();

        for i in 0..self.only_in_a.len()
            invariant
                in_a == self.only_in_a.deep_view(),
                lines.deep_view() == Seq::new(i as nat, |k: int| only_in_a_line(in_a[k])),
        {
            let mut text = String::from_str("Export ");
            text.append(self.only_in_a[i]);
            text.append(" is present in A but not in B");
            let ghost before = lines.deep_view();
            lines.push(text);
            assert(lines.deep_view() =~= before.push(text@));
        }
        let ghost first = lines.deep_view();

        for i in 0..self.only_in_b.len()
            invariant
                in_b == self.only_in_b.deep_view(),
                lines.deep_view() == first + Seq::new(i as nat, |k: int| only_in_b_line(in_b[k])),
        {
            let mut text = String::from_str("Export ");
            text.append(self.only_in_b[i]);
            text.append(" is present in B but not in A");
            let ghost before = lines.deep_view();
            lines.push(text);
            assert(lines.deep_view() =~= before.push(text@));
        }
        let ghost second = lines.deep_view();

        let count: usize = self.changes.len();
        for g in 0..count
            invariant
                self.changes.wf(),
                groups == self.changes@,
                count == groups.len(),
                lines.deep_view() == second + changes_text(groups, g as int),
        {
            let name = self.changes.name(g);
            let variants = self.changes.variants(g);
            let ghost before = lines.deep_view();
            for v in 0..variants.len()
                invariant
                    groups == self.changes@,
                    g < groups.len(),
                    name@ == groups[g as int].name,
                    variants.deep_view() == groups[g as int].variants,
                    lines.deep_view() == before + group_text(groups[g as int], v as int),
            {
                let (tokens, other_tokens) = variants[v];
                let mut text = format_type_change(name, tokens, other_tokens);
                let ghost so_far = lines.deep_view();
                let ghost more = text.deep_view();
                lines.append(&mut text);
                proof {
                    assert(lines.deep_view() =~= so_far + more);
                }
            }
        }
        lines
    }
}

} // verus!
