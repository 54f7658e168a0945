//! The corpus: the declarations of one build, loaded from many files into one
//! table of deduplicated type variants.

use vstd::prelude::*;
use crate::model::decls;
use crate::model::lemma_declare_valid;
use crate::model::merge;
use crate::model::merge_index;
use crate::model::variants_of;
use crate::model::CorpusSpec;
use crate::model::FileSpec;
use crate::name_map::NameMap;
use crate::parse::lines;
use crate::parse::parse_line;
use crate::token::Token;
use crate::token::TokenSpec;

verus! {

/// The declarations of one loaded file.
pub struct SymFile {
    path: String,
    records: NameMap<usize>,
}

impl View for SymFile {
    type V = FileSpec;

    closed spec fn view(&self) -> FileSpec {
        FileSpec {
            path: self.path@,
            records: Map::new(
                |name: Seq<char>| self.records.contains(name),
                |name: Seq<char>| self.records.get(name) as nat,
            ),
        }
    }
}

impl SymFile {
    /// Well-formedness of the records of the file.
    pub closed spec fn wf(&self) -> bool {
        self.records.wf()
    }

    /// The path that the file was loaded from.
    pub fn path(&self) -> (path: &str)
        ensures
            path@ == self@.path,
    {
        self.path.as_str()
    }

    /// Whether the file declares `name`.
    pub fn declares(&self, name: &str) -> (found: bool)
        requires
            self.wf(),
        ensures
            found == self@.records.contains_key(name@),
    {
        self.records.find(name).is_some()
    }
}

/// The declarations of one build.
pub struct SymCorpus {
    types: NameMap<Vec<Vec<Token>>>,
    exports: NameMap<usize>,
    files: Vec<SymFile>,
}

impl View for SymCorpus {
    type V = CorpusSpec;

    closed spec fn view(&self) -> CorpusSpec {
        CorpusSpec {
            types: Map::new(
                |name: Seq<char>| self.types.contains(name),
                |name: Seq<char>| self.types.get(name).deep_view(),
            ),
            exports: Map::new(
                |name: Seq<char>| self.exports.contains(name),
                |name: Seq<char>| self.exports.get(name) as nat,
            ),
            export_order: self.exports.names(),
            files: Seq::new(self.files@.len(), |f: int| self.files@[f]@),
        }
    }
}

impl SymCorpus {
    /// The maps of the corpus and of its files are well-formed.
    pub closed spec fn inv(&self) -> bool {
        &&& self.types.wf()
        &&& self.exports.wf()
        &&& forall|f: int| 0 <= f < self.files@.len() ==> (#[trigger] self.files@[f]).records.wf()
    }

    /// Well-formedness, which every constructor establishes and every method
    /// keeps.
    pub open spec fn wf(&self) -> bool {
        &&& self.inv()
        &&& self@.valid()
    }

    /// Whether `file` is one of the files of this corpus.
    pub closed spec fn owns(&self, file: &SymFile) -> bool {
        exists|f: int| 0 <= f < self.files@.len() && self.files@[f] == *file
    }

    /// A file of the corpus is one of the files of its model, and declares
    /// finitely many names.
    pub proof fn lemma_owns(&self, file: &SymFile)
        requires
            self.wf(),
            self.owns(file),
        ensures
            exists|f: int| 0 <= f < self@.files.len() && self@.files[f] == file@,
            file@.records.dom().finite(),
            file.wf(),
    {
        let f = choose|f: int| 0 <= f < self.files@.len() && self.files@[f] == *file;
        assert(self@.files[f] == file@);
        assert(file@.records.dom() =~= file.records.dom());
    }

    /// Makes a corpus that holds nothing.
    pub fn new() -> (corpus: SymCorpus)
        ensures
            corpus.wf(),
            corpus@ == CorpusSpec::empty(),
    {
        let corpus = SymCorpus { types: NameMap::new(), exports: NameMap::new(), files: Vec::new() };
        proof {
            assert(corpus@.types =~= Map::empty());
            assert(corpus@.exports =~= Map::empty());
            assert(corpus@.files =~= Seq::empty());
        }
        corpus
    }

    /// Whether two token sequences are equal: of one length, and equal token by
    /// token in kind and text.
    pub fn are_tokens_eq(a: &Vec<Token>, b: &Vec<Token>) -> (equal: bool)
        ensures
            equal == (a.deep_view() == b.deep_view()),
    {
        assert(a.deep_view().len() == a.len() && b.deep_view().len() == b.len());
        if a.len() != b.len() {
            return false;
        }
        for i in 0..a.len()
            invariant
                a.len() == b.len(),
                forall|j: int| 0 <= j < i ==> a[j]@ == b[j]@,
        {
            if !(a[i] == b[i]) {
                assert(a.deep_view()[i as int] != b.deep_view()[i as int]);
                return false;
            }
        }
        assert(a.deep_view() =~= b.deep_view());
        true
    }

    /// The number of loaded files.
    pub fn file_count(&self) -> (count: usize)
        ensures
            count == self@.files.len(),
    {
        self.files.len()
    }

    /// The file that was loaded as number `f`.
    pub fn file(&self, f: usize) -> (file: &SymFile)
        requires
            f < self@.files.len(),
        ensures
            self.owns(file),
            file@ == self@.files[f as int],
    {
        &self.files[f]
    }

    /// The number of exports.
    pub fn export_count(&self) -> (count: usize)
        ensures
            count == self@.export_order.len(),
    {
        self.exports.len()
    }

    /// The name of the export at position `i` of the export order.
    pub fn export_name(&self, i: usize) -> (name: &str)
        requires
            i < self@.export_order.len(),
        ensures
            name@ == self@.export_order[i as int],
    {
        self.exports.name(i)
    }

    /// The export at position `i` of the export order, with the file that
    /// declared it last.
    pub fn export_at(&self, i: usize) -> (export: (&str, &SymFile))
        requires
            self.wf(),
            i < self@.export_order.len(),
        ensures
            export.0@ == self@.export_order[i as int],
            self@.exports.contains_key(export.0@),
            self.owns(export.1),
            export.1@ == self@.files[self@.exports[export.0@] as int],
    {
        proof {
            self.exports.lemma_position(i as int);
        }
        let f: usize = *self.exports.value(i);
        (self.exports.name(i), &self.files[f])
    }

    /// The file that declared the export `name` last, if `name` is an export.
    pub fn export_file(&self, name: &str) -> (found: Option<&SymFile>)
        requires
            self.wf(),
        ensures
            match found {
                Some(file) => self@.exports.contains_key(name@) && self.owns(file) && file@
                    == self@.files[self@.exports[name@] as int],
                None => !self@.exports.contains_key(name@),
            },
    {
        match self.exports.find(name) {
            Some(at) => {
                let f: usize = *self.exports.value(at);
                Some(&self.files[f])
            },
            None => None,
        }
    }

    /// The number of variants recorded for `name`.
    pub fn variant_count(&self, name: &str) -> (count: usize)
        requires
            self.wf(),
        ensures
            count == variants_of(self@.types, name@).len(),
    {
        match self.types.find(name) {
            Some(at) => self.types.value(at).len(),
            None => 0,
        }
    }

    /// The tokens that `file` uses for `name`, if it declares the name.
    pub fn get_type_tokens<'a>(symtypes: &'a SymCorpus, file: &SymFile, name: &str) -> (found: Option<
        &'a Vec<Token>,
    >)
        requires
            symtypes.wf(),
            symtypes.owns(file),
        ensures
            match found {
                Some(tokens) => file@.records.contains_key(name@) && tokens.deep_view() == decls(
                    symtypes@.types,
                    file@,
                )[name@],
                None => !file@.records.contains_key(name@),
            },
    {
        proof {
            symtypes.lemma_owns(file);
        }
        let ghost f = choose|f: int| 0 <= f < symtypes@.files.len() && symtypes@.files[f] == file@;
        match file.records.find(name) {
            Some(at) => {
                let variant: usize = *file.records.value(at);
                assert(symtypes@.files[f].records.contains_key(name@));
                match symtypes.types.find(name) {
                    Some(slot) => {
                        let variants = symtypes.types.value(slot);
                        Some(&variants[variant])
                    },
                    None => {
                        None
                    },
                }
            },
            None => None,
        }
    }

    /// Merges `tokens` into the variants of `name`: returns the index of the
    /// variant equal to `tokens`, which is appended if the name has none.
    pub fn merge_type(&mut self, name: &str, tokens: Vec<Token>) -> (index: usize)
        requires
            old(self).wf(),
        ensures
            final(self).wf(),
            final(self)@ == (CorpusSpec {
                types: merge(old(self)@.types, name@, tokens.deep_view()),
                ..old(self)@
            }),
            index == merge_index(old(self)@.types, name@, tokens.deep_view()),
    {
        let ghost before = self@;
        let ghost body = tokens.deep_view();
        match self.types.find(name) {
            Some(at) => {
                let variants = self.types.value(at);
                let ghost known = variants.deep_view();
                let mut i: usize = 0;
                let mut found = false;
                while i < variants.len() && !found
                    invariant
                        i <= variants.len(),
                        known == variants.deep_view(),
                        body == tokens.deep_view(),
                        found ==> i < variants.len() && known[i as int] == body,
                        forall|j: int| 0 <= j < i ==> known[j] != body,
                    decreases variants.len() - i + if found { 0int } else { 1int },
                {
                    if Self::are_tokens_eq(&tokens, &variants[i]) {
                        found = true;
                    } else {
                        i += 1;
                    }
                }
                if found {
                    return i;
                }
                let slot = self.types.value_mut(at);
                slot.push(tokens);
                proof {
                    assert forall|other: Seq<char>| self.types.contains(other) implies (
                    #[trigger] self.types.get(other)).deep_view() == before.types.insert(
                        name@,
                        known.push(body),
                    )[other] by {}
                    assert(self@.types =~= before.types.insert(name@, known.push(body)));
                }
                i
            },
            None => {
                let mut variants: Vec<Vec<Token>> = Vec::new();
                variants.push(tokens);
                self.types.push(name.to_owned(), variants);
                proof {
                    assert forall|other: Seq<char>| self.types.contains(other) implies (
                    #[trigger] self.types.get(other)).deep_view() == before.types.insert(
                        name@,
                        Seq::<Seq<TokenSpec>>::empty().push(body),
                    )[other] by {}
                    assert forall|other: Seq<char>|
                        self.types.contains(other) <==> (other == name@ || old(self).types.contains(
                            other,
                        )) by {
                        assert(self.types.map().contains_key(other) == self.types.contains(other));
                    }
                    assert(self@.types =~= before.types.insert(
                        name@,
                        Seq::<Seq<TokenSpec>>::empty().push(body),
                    ));
                }
                0
            },
        }
    }

    /// Opens a new file at `path`, to which the declarations that follow go.
    pub fn open_file(&mut self, path: &str)
        requires
            old(self).wf(),
        ensures
            final(self).wf(),
            final(self)@ == old(self)@.open_file(path@),
    {
        let file = SymFile { path: path.to_owned(), records: NameMap::new() };
        proof {
            assert(file@.records =~= Map::empty());
        }
        self.files.push(file);
        proof {
            assert(self@.files =~= old(self)@.files.push(file@));
        }
    }

    /// Adds to the file opened last the declaration of `name` with the body
    /// `tokens`.
    pub fn declare(&mut self, name: &str, tokens: Vec<Token>)
        requires
            old(self).wf(),
            old(self)@.files.len() > 0,
        ensures
            final(self).wf(),
            final(self)@ == old(self)@.declare(name@, tokens.deep_view()),
    {
        let ghost before = self@;
        let ghost body = tokens.deep_view();
        proof {
            lemma_declare_valid(before, name@, body);
        }
        let index: usize = self.merge_type(name, tokens);
        let last: usize = self.files.len() - 1;
        let ghost records = self.files@[last as int].records;
        self.files[last].records.insert(name, index);
        proof {
            let after = self.files@[last as int].records;
            assert forall|other: Seq<char>|
                after.contains(other) <==> (other == name@ || records.contains(other)) by {
                assert(after.map().contains_key(other) == after.contains(other));
            }
            assert(self.files@[last as int]@.records =~= before.files[last as int].records.insert(
                name@,
                index as nat,
            ));
            assert(self@.files =~= before.declare(name@, body).files);
        }
        if !Token::is_typeref(name) {
            self.exports.insert(name, last);
            proof {
                assert(self@.exports =~= before.exports.insert(name@, last as nat));
            }
        }
    }

    /// Gives the file opened last one more line of its text: the declaration on
    /// it is added, and a line without words is passed over.
    pub fn load_line(&mut self, line: &str)
        requires
            old(self).wf(),
            old(self)@.files.len() > 0,
        ensures
            final(self).wf(),
            final(self)@ == old(self)@.load_line(line@),
            final(self)@.files.len() == old(self)@.files.len(),
    {
        match parse_line(line) {
            Some((name, tokens)) => {
                self.declare(name.as_str(), tokens);
            },
            None => {},
        }
    }

    /// Loads the file at `path`, whose content is `text`.
    pub fn load_file(&mut self, path: &str, text: &str)
        requires
            old(self).wf(),
        ensures
            final(self).wf(),
            final(self)@ == old(self)@.load_file(path@, text@),
    {
        self.open_file(path);
        let ghost opened = self@;
        let mut line = String::new();
        for c in it: text.chars()
            invariant
                it.seq() == text@,
                self.wf(),
                self@.files.len() > 0,
                lines(text@.take(it.index() as int)).len() > 0,
                lines(text@.take(it.index() as int)).last() == line@,
                self@ == opened.load_lines(lines(text@.take(it.index() as int)).drop_last()),
        {
            let ghost read = lines(text@.take(it.index() as int));
            proof {
                assert(text@.take(it.index() + 1).drop_last() =~= text@.take(it.index() as int));
            }
            if c == '\n' {
                self.load_line(line.as_str());
                line = String::new();
                assert(read.push(Seq::<char>::empty()).drop_last() =~= read);
            } else {
                line.push(c);
                assert(read.drop_last().push(read.last().push(c)).drop_last() =~= read.drop_last());
            }
        }
        assert(text@.take(text@.len() as int) =~= text@);
        self.load_line(line.as_str());
    }
}

} // verus!
