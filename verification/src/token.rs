//! The token model: every word of a declaration is either a literal atom or a
//! reference to another declared type.

use vstd::prelude::*;
use vstd::string::StrSliceExecFns;
use vstd::string::StringExecFns;
use vstd::std_specs::cmp::PartialEqSpecImpl;

verus! {

/// The character that marks a word as a type reference when it stands in second
/// position, as in `s#foo`, `u#foo`, `e#foo` and `t#foo`.
pub const MARKER: char = '#';

/// Mathematical model of a [`Token`].
pub enum TokenSpec {
    /// A reference to the declared type of this name.
    TypeRef(Seq<char>),
    /// A literal word.
    Atom(Seq<char>),
}

impl TokenSpec {
    /// The text of the token, whatever its kind.
    pub open spec fn text(self) -> Seq<char> {
        match self {
            TokenSpec::TypeRef(name) => name,
            TokenSpec::Atom(word) => word,
        }
    }
}

/// A word is a type reference exactly when its second character is the marker.
pub open spec fn is_typeref(word: Seq<char>) -> bool {
    word.len() >= 2 && word[1] == MARKER
}

/// The token that a word of a declaration body stands for.
pub open spec fn classify(word: Seq<char>) -> TokenSpec {
    if is_typeref(word) {
        TokenSpec::TypeRef(word)
    } else {
        TokenSpec::Atom(word)
    }
}

/// One word of a declaration body.
#[derive(Debug)]
pub enum Token {
    /// A reference to the declared type of this name.
    TypeRef(String),
    /// A literal word.
    Atom(String),
}

impl View for Token {
    type V = TokenSpec;

    open spec fn view(&self) -> TokenSpec {
        match self {
            Token::TypeRef(name) => TokenSpec::TypeRef(name@),
            Token::Atom(word) => TokenSpec::Atom(word@),
        }
    }
}

impl DeepView for Token {
    type V = TokenSpec;

    open spec fn deep_view(&self) -> TokenSpec {
        self@
    }
}

impl PartialEq for Token {
    fn eq(&self, other: &Token) -> (res: bool) {
        match (self, other) {
            (Token::TypeRef(a), Token::TypeRef(b)) => *a == *b,
            (Token::Atom(a), Token::Atom(b)) => *a == *b,
            _ => false,
        }
    }
}

impl PartialEqSpecImpl for Token {
    open spec fn obeys_eq_spec() -> bool {
        true
    }

    open spec fn eq_spec(&self, other: &Token) -> bool {
        self@ == other@
    }
}

impl Eq for Token {}

impl Token {
    /// Makes a reference to the type called `name`.
    pub fn new_typeref(name: &str) -> (token: Token)
        ensures
            token@ == TokenSpec::TypeRef(name@),
    {
        Token::TypeRef(String::from_str(name))
    }

    /// Makes a literal atom out of `word`.
    pub fn new_atom(word: &str) -> (token: Token)
        ensures
            token@ == TokenSpec::Atom(word@),
    {
        Token::Atom(String::from_str(word))
    }

    /// Classifies a word of a declaration body and keeps its text.
    pub fn from_string(word: String) -> (token: Token)
        ensures
            token@ == classify(word@),
    {
        let length: usize = word.as_str().unicode_len();
        if length >= 2 && word.as_str().get_char(1) == MARKER {
            Token::TypeRef(word)
        } else {
            Token::Atom(word)
        }
    }

    /// Whether `word` is marked as a reference to a type.
    pub fn is_typeref(word: &str) -> (marked: bool)
        ensures
            marked == is_typeref(word@),
    {
        word.unicode_len() >= 2 && word.get_char(1) == MARKER
    }

    /// The text of the token, whatever its kind.
    pub fn as_str(&self) -> (text: &str)
        ensures
            text@ == self@.text(),
    {
        match self {
            Token::TypeRef(name) => name.as_str(),
            Token::Atom(word) => word.as_str(),
        }
    }
}

} // verus!
