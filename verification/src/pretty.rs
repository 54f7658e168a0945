//! The pretty-printer: lays a flat token sequence out as indented lines that
//! read like a C declaration.

use vstd::prelude::*;
use vstd::string::StrSliceExecFns;
use vstd::string::StringExecFns;
use crate::token::Token;
use crate::token::TokenSpec;

verus! {

/// The state of the printer between two tokens.
pub struct Layout {
    /// The lines that are finished.
    pub done: Seq<Seq<char>>,
    /// The line that is being written.
    pub line: Seq<char>,
    /// The current depth of nesting.
    pub indent: nat,
}

/// One level of indentation is one tab.
pub open spec fn tabs(indent: nat) -> Seq<char> {
    Seq::new(indent, |i: int| '\t')
}

/// Whether `word` consists of the character `c` alone.
pub open spec fn is_punct(word: Seq<char>, c: char) -> bool {
    word.len() == 1 && word[0] == c
}

/// The pending line made ready for a word that is set off from what precedes
/// it: an empty line gets its indentation, any other a separating space.
pub open spec fn spaced(line: Seq<char>, indent: nat) -> Seq<char> {
    if line.len() == 0 {
        tabs(indent)
    } else {
        line.push(' ')
    }
}

/// The pending line made ready for punctuation that sticks to what precedes
/// it: an empty line gets its indentation.
pub open spec fn attached(line: Seq<char>, indent: nat) -> Seq<char> {
    if line.len() == 0 {
        tabs(indent)
    } else {
        line
    }
}

/// What one word does to the state of the printer.
///
/// An opening brace ends its line and deepens the nesting. A closing brace
/// ends any pending line, lifts the nesting (never above the top level) and
/// starts a line of its own. A semicolon or a comma sticks to the pending line
/// and ends it. Any other word joins the pending line.
pub open spec fn step(st: Layout, word: Seq<char>) -> Layout {
    if is_punct(word, '{') {
        Layout {
            done: st.done.push(spaced(st.line, st.indent).push('{')),
            line: Seq::empty(),
            indent: st.indent + 1,
        }
    } else if is_punct(word, '}') {
        let indent = if st.indent > 0 {
            (st.indent - 1) as nat
        } else {
            0
        };
        Layout {
            done: if st.line.len() > 0 {
                st.done.push(st.line)
            } else {
                st.done
            },
            line: tabs(indent).push('}'),
            indent,
        }
    } else if is_punct(word, ';') || is_punct(word, ',') {
        Layout {
            done: st.done.push(attached(st.line, st.indent).push(word[0])),
            line: Seq::empty(),
            indent: st.indent,
        }
    } else {
        Layout { done: st.done, line: spaced(st.line, st.indent) + word, indent: st.indent }
    }
}

/// The state of the printer after all of `tokens`.
pub open spec fn layout(tokens: Seq<TokenSpec>) -> Layout
    decreases tokens.len(),
{
    if tokens.len() == 0 {
        Layout { done: Seq::empty(), line: Seq::empty(), indent: 0 }
    } else {
        step(layout(tokens.drop_last()), tokens.last().text())
    }
}

/// The lines of the pretty-printed form of `tokens`: the finished lines, and
/// the pending one if anything stands on it.
pub open spec fn pretty(tokens: Seq<TokenSpec>) -> Seq<Seq<char>> {
    let st = layout(tokens);
    if st.line.len() > 0 {
        st.done.push(st.line)
    } else {
        st.done
    }
}

/// The nesting never runs deeper than the number of tokens read.
pub proof fn lemma_indent_bounded(tokens: Seq<TokenSpec>)
    ensures
        layout(tokens).indent <= tokens.len(),
    decreases tokens.len(),
{
    if tokens.len() > 0 {
        lemma_indent_bounded(tokens.drop_last());
    }
}

/// Every finished line holds at least one character, so the printer emits no
/// blank line.
pub proof fn lemma_no_blank_line(tokens: Seq<TokenSpec>, i: int)
    requires
        0 <= i < pretty(tokens).len(),
    ensures
        pretty(tokens)[i].len() > 0,
{
    lemma_done_lines_not_blank(tokens);
}

proof fn lemma_done_lines_not_blank(tokens: Seq<TokenSpec>)
    ensures
        forall|i: int| 0 <= i < layout(tokens).done.len() ==> layout(tokens).done[i].len() > 0,
    decreases tokens.len(),
{
    if tokens.len() > 0 {
        lemma_done_lines_not_blank(tokens.drop_last());
        let before = layout(tokens.drop_last());
    }
}

/// The only character of `word`, if it has exactly one.
fn single_char(word: &str) -> (found: Option<char>)
    ensures
        match found {
            Some(c) => is_punct(word@, c),
            None => word@.len() != 1,
        },
{
    if word.unicode_len() == 1 {
        Some(word.get_char(0))
    } else {
        None
    }
}

/// Appends `indent` levels of indentation to `line`.
fn push_indent(line: &mut String, indent: usize)
    ensures
        final(line)@ == old(line)@ + tabs(indent as nat),
{
    let mut done: usize = 0;
    while done < indent
        invariant
            done <= indent,
            line@ == old(line)@ + tabs(done as nat),
        decreases indent - done,
    {
        line.append("\t");
        proof {
            reveal_strlit("\t");
        }
        done = done + 1;
    }
}

/// Pretty-prints the tokens of a declaration as indented lines.
pub fn pretty_format_type(tokens: &Vec<Token>) -> (lines: Vec<String>)
    ensures
        lines.deep_view() == pretty(tokens.deep_view()),
{
    let ghost words = tokens.deep_view();
    let mut res: Vec<String> = Vec::new();
    let mut indent: usize = 0;
    let mut line = String::new();

    assert(res.deep_view() =~= Seq::<Seq<char>>::empty());
    for i in 0..tokens.len()
        invariant
            words == tokens.deep_view(),
            layout(words.take(i as int)) == (Layout {
                done: res.deep_view(),
                line: line@,
                indent: indent as nat,
            }),
    {
        let ghost before = layout(words.take(i as int));
        let word = tokens[i].as_str();
        proof {
            assert(words.take(i + 1).drop_last() =~= words.take(i as int));
            lemma_indent_bounded(words.take(i as int));
            reveal_strlit(" ");
            reveal_strlit("{");
            reveal_strlit("}");
            reveal_strlit(";");
            reveal_strlit(",");
        }
        let punct = single_char(word);

        // A closing brace ends any pending line and lifts the nesting.
        if punct == Some('}') {
            if !line.as_str().is_empty() {
                res.push(line);
                assert(res.deep_view() =~= before.done.push(before.line));
            }
            if indent > 0 {
                indent -= 1;
            }
            line = String::new();
        }
        let ghost closed = res.deep_view();

        // A line that starts here starts with its indentation.
        let is_first = line.as_str().is_empty();
        if is_first {
            push_indent(&mut line, indent);
        }

        if punct == Some('{') {
            if !is_first {
                line.append(" ");
            }
            line.append("{");
            assert(line@ =~= spaced(before.line, before.indent).push('{'));
            res.push(line);
            assert(res.deep_view() =~= closed.push(spaced(before.line, before.indent).push('{')));
            indent += 1;
            line = String::new();
        } else if punct == Some('}') {
            line.append("}");
            assert(line@ =~= tabs(indent as nat).push('}'));
        } else if punct == Some(';') {
            line.append(";");
            assert(line@ =~= attached(before.line, before.indent).push(';'));
            res.push(line);
            assert(res.deep_view() =~= closed.push(attached(before.line, before.indent).push(';')));
            line = String::new();
        } else if punct == Some(',') {
            line.append(",");
            assert(line@ =~= attached(before.line, before.indent).push(','));
            res.push(line);
            assert(res.deep_view() =~= closed.push(attached(before.line, before.indent).push(',')));
            line = String::new();
        } else {
            if !is_first {
                line.append(" ");
            }
            line.append(word);
            assert(line@ =~= spaced(before.line, before.indent) + word@);
        }
    }
    assert(words.take(tokens.len() as int) =~= words);

    if !line.as_str().is_empty() {
        res.push(line);
    }
    res
}

} // verus!
