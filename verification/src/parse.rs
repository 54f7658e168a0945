//! The declaration file format: one declaration per line, made of words that
//! ASCII whitespace separates. The first word is the declared name, the others
//! are the tokens of the declaration.

use vstd::prelude::*;
use vstd::string::StrSliceExecFns;
use crate::token::classify;
use crate::token::Token;
use crate::token::TokenSpec;

verus! {

/// `String::push` of the standard library appends the character to the text.
pub assume_specification[ String::push ](text: &mut String, c: char)
    ensures
        final(text)@ == old(text)@.push(c),
;

/// The characters that separate words: space, tab, line feed, form feed and
/// carriage return.
pub open spec fn is_space(c: char) -> bool {
    c == ' ' || c == '\t' || c == '\n' || c == '\x0C' || c == '\r'
}

/// The state of the word splitter between two characters.
pub struct Scan {
    /// The words that are finished.
    pub words: Seq<Seq<char>>,
    /// The word that is being read, empty between words.
    pub word: Seq<char>,
}

/// The words of a state, the one being read included.
pub open spec fn finished(st: Scan) -> Seq<Seq<char>> {
    if st.word.len() > 0 {
        st.words.push(st.word)
    } else {
        st.words
    }
}

/// The state of the word splitter after all of `line`: a separator finishes the
/// word that is being read, any other character extends it.
pub open spec fn scan(line: Seq<char>) -> Scan
    decreases line.len(),
{
    if line.len() == 0 {
        Scan { words: Seq::empty(), word: Seq::empty() }
    } else {
        let st = scan(line.drop_last());
        if is_space(line.last()) {
            Scan { words: finished(st), word: Seq::empty() }
        } else {
            Scan { words: st.words, word: st.word.push(line.last()) }
        }
    }
}

/// The words of `line`: its maximal runs of characters that are no separators.
pub open spec fn words(line: Seq<char>) -> Seq<Seq<char>> {
    finished(scan(line))
}

/// The tokens that a sequence of words stands for.
pub open spec fn tokens_of(words: Seq<Seq<char>>) -> Seq<TokenSpec> {
    Seq::new(words.len(), |i: int| classify(words[i]))
}

/// The declaration that `line` holds, as the declared name and the tokens of
/// its body. A line without words holds none; a line with a name alone
/// declares the name with an empty body.
pub open spec fn declaration(line: Seq<char>) -> Option<(Seq<char>, Seq<TokenSpec>)> {
    let w = words(line);
    if w.len() == 0 {
        None
    } else {
        Some((w[0], tokens_of(w.skip(1))))
    }
}

/// The lines of `text`: the stretches between its line feeds. A text without
/// line feed is one line.
pub open spec fn lines(text: Seq<char>) -> Seq<Seq<char>>
    decreases text.len(),
{
    if text.len() == 0 {
        seq![Seq::empty()]
    } else {
        let before = lines(text.drop_last());
        if text.last() == '\n' {
            before.push(Seq::empty())
        } else {
            before.drop_last().push(before.last().push(text.last()))
        }
    }
}

/// A text has one line more than it has line feeds, and no line holds one.
pub proof fn lemma_lines(text: Seq<char>)
    ensures
        lines(text).len() >= 1,
        forall|i: int, j: int|
            0 <= i < lines(text).len() && 0 <= j < lines(text)[i].len() ==> #[trigger] lines(
                text,
            )[i][j] != '\n',
    decreases text.len(),
{
    if text.len() > 0 {
        lemma_lines(text.drop_last());
    }
}

/// Lines put together again, with a line feed between every two.
pub open spec fn rejoined(lines: Seq<Seq<char>>) -> Seq<char>
    decreases lines.len(),
{
    if lines.len() == 0 {
        Seq::empty()
    } else if lines.len() == 1 {
        lines[0]
    } else {
        rejoined(lines.drop_last()).push('\n') + lines.last()
    }
}

/// The lines of a text, put together again, are the text.
pub proof fn lemma_lines_rejoined(text: Seq<char>)
    ensures
        rejoined(lines(text)) == text,
    decreases text.len(),
{
    if text.len() > 0 {
        lemma_lines_rejoined(text.drop_last());
        let before = lines(text.drop_last());
        let after = lines(text);
        if text.last() == '\n' {
            assert(after.drop_last() =~= before);
        } else if before.len() != 1 {
            assert(after.drop_last() =~= before.drop_last());
            assert(rejoined(after) =~= rejoined(before).push(text.last()));
        }
    }
}

/// The characters of a line that are no separators, in their order.
pub open spec fn letters(line: Seq<char>) -> Seq<char>
    decreases line.len(),
{
    if line.len() == 0 {
        Seq::empty()
    } else if is_space(line.last()) {
        letters(line.drop_last())
    } else {
        letters(line.drop_last()).push(line.last())
    }
}

/// Words written one behind the other.
pub open spec fn run_together(words: Seq<Seq<char>>) -> Seq<char>
    decreases words.len(),
{
    if words.len() == 0 {
        Seq::empty()
    } else {
        run_together(words.drop_last()) + words.last()
    }
}

/// The words of a line hold, in their order, the characters of the line that
/// are no separators, and nothing else.
pub proof fn lemma_words_keep_letters(line: Seq<char>)
    ensures
        run_together(words(line)) == letters(line),
{
    lemma_scan_keeps_letters(line);
    let st = scan(line);
    if st.word.len() > 0 {
        assert(st.words.push(st.word).drop_last() =~= st.words);
    }
}

proof fn lemma_scan_keeps_letters(line: Seq<char>)
    ensures
        run_together(scan(line).words) + scan(line).word == letters(line),
    decreases line.len(),
{
    if line.len() > 0 {
        lemma_scan_keeps_letters(line.drop_last());
        let before = scan(line.drop_last());
        let after = scan(line);
        if is_space(line.last()) {
            if before.word.len() > 0 {
                assert(after.words.drop_last() =~= before.words);
            }
        } else {
            assert(run_together(after.words) + after.word =~= (run_together(before.words)
                + before.word).push(line.last()));
        }
    }
}

/// No word is empty and no word holds a separator.
pub proof fn lemma_words_are_solid(line: Seq<char>)
    ensures
        forall|i: int, j: int|
            0 <= i < words(line).len() && 0 <= j < words(line)[i].len() ==> !is_space(
                #[trigger] words(line)[i][j],
            ),
        forall|i: int| 0 <= i < words(line).len() ==> (#[trigger] words(line)[i]).len() > 0,
{
    lemma_scan_is_solid(line);
}

proof fn lemma_scan_is_solid(line: Seq<char>)
    ensures
        forall|i: int, j: int|
            0 <= i < scan(line).words.len() && 0 <= j < scan(line).words[i].len() ==> !is_space(
                #[trigger] scan(line).words[i][j],
            ),
        forall|i: int| 0 <= i < scan(line).words.len() ==> (#[trigger] scan(line).words[i]).len() > 0,
        forall|j: int| 0 <= j < scan(line).word.len() ==> !is_space(#[trigger] scan(line).word[j]),
    decreases line.len(),
{
    if line.len() > 0 {
        lemma_scan_is_solid(line.drop_last());
        let before = scan(line.drop_last());
    }
}

/// A line of separators alone holds no word.
pub proof fn lemma_blank_line(line: Seq<char>)
    requires
        forall|i: int| 0 <= i < line.len() ==> is_space(line[i]),
    ensures
        words(line).len() == 0,
        declaration(line) is None,
    decreases line.len(),
{
    if line.len() > 0 {
        lemma_blank_line(line.drop_last());
    }
}

/// Whether a file of this name holds declarations: its name ends in
/// `.symtypes`, behind at least one more character.
pub open spec fn has_declaration_suffix(file_name: Seq<char>) -> bool {
    let suffix = ".symtypes"@;
    file_name.len() > suffix.len() && file_name.skip(file_name.len() - suffix.len()) == suffix
}

/// Whether a file of this name holds declarations.
pub fn is_declaration_file(file_name: &str) -> (accepted: bool)
    ensures
        accepted == has_declaration_suffix(file_name@),
{
    let suffix = ".symtypes";
    let length: usize = file_name.unicode_len();
    let tail_length: usize = suffix.unicode_len();
    if length <= tail_length {
        return false;
    }
    let tail = file_name.substring_char(length - tail_length, length);
    for i in 0..tail_length
        invariant
            tail@.len() == tail_length,
            suffix@ == ".symtypes"@,
            suffix@.len() == tail_length,
            file_name@.len() == length,
            length > tail_length,
            tail@ == file_name@.skip(length - tail_length),
            forall|k: int| 0 <= k < i ==> tail@[k] == suffix@[k],
    {
        if tail.get_char(i) != suffix.get_char(i) {
            return false;
        }
    }
    assert(tail@ =~= suffix@);
    true
}

/// Whether `c` separates words.
pub fn is_separator(c: char) -> (space: bool)
    ensures
        space == is_space(c),
{
    c == ' ' || c == '\t' || c == '\n' || c == '\x0C' || c == '\r'
}

/// What the parser holds stands for the state `st` of the word splitter.
spec fn holds(st: Scan, name: Option<String>, tokens: Vec<Token>) -> bool {
    match name {
        None => st.words.len() == 0 && tokens@.len() == 0,
        Some(n) => st.words.len() > 0 && st.words[0] == n@ && tokens.deep_view() == tokens_of(
            st.words.skip(1),
        ),
    }
}

/// Takes a finished word: the first one is the declared name, each later one a
/// token of the body.
fn accept(name: &mut Option<String>, tokens: &mut Vec<Token>, word: String, Ghost(st): Ghost<Scan>)
    requires
        holds(st, *old(name), *old(tokens)),
    ensures
        holds(Scan { words: st.words.push(word@), word: Seq::empty() }, *final(name), *final(tokens)),
{
    let ghost after = st.words.push(word@);
    if name.is_none() {
        *name = Some(word);
        assert(tokens.deep_view() =~= tokens_of(after.skip(1)));
    } else {
        let token = Token::from_string(word);
        tokens.push(token);
        assert(tokens.deep_view() =~= old(tokens).deep_view().push(token@));
        assert(tokens_of(after.skip(1)) =~= tokens_of(st.words.skip(1)).push(classify(word@)));
    }
}

/// Reads the declaration that `line` holds, if it holds one.
pub fn parse_line(line: &str) -> (decl: Option<(String, Vec<Token>)>)
    ensures
        match decl {
            Some((name, tokens)) => declaration(line@) == Some((name@, tokens.deep_view())),
            None => declaration(line@) is None,
        },
{
    let mut name: Option<String> = None;
    let mut tokens: Vec<Token> = Vec::new();
    let mut word = String::new();

    for c in it: line.chars()
        invariant
            it.seq() == line@,
            holds(scan(line@.take(it.index() as int)), name, tokens),
            scan(line@.take(it.index() as int)).word == word@,
    {
        let ghost st = scan(line@.take(it.index() as int));
        proof {
            assert(line@.take(it.index() + 1).drop_last() =~= line@.take(it.index() as int));
        }
        if is_separator(c) {
            if !word.as_str().is_empty() {
                accept(&mut name, &mut tokens, word, Ghost(st));
                word = String::new();
            }
        } else {
            word.push(c);
        }
    }
    let ghost st = scan(line@);
    assert(line@.take(line@.len() as int) =~= line@);
    if !word.as_str().is_empty() {
        accept(&mut name, &mut tokens, word, Ghost(st));
    }
    match name {
        Some(name) => Some((name, tokens)),
        None => None,
    }
}

} // verus!
