//! The mathematical model of a corpus: what a corpus holds, what loading does
//! to it, and what holds of every corpus that loading has built.

use vstd::prelude::*;
use crate::parse::declaration;
use crate::parse::lines;
use crate::token::is_typeref;
use crate::token::TokenSpec;

verus! {

/// Mathematical model of a [`SymFile`].
pub struct FileSpec {
    /// The path that the file was loaded from.
    pub path: Seq<char>,
    /// For every name that the file declares, the variant of the name that it
    /// uses.
    pub records: Map<Seq<char>, nat>,
}

/// Mathematical model of a [`SymCorpus`].
pub struct CorpusSpec {
    /// The type table: for every name the distinct token sequences seen for it.
    pub types: Map<Seq<char>, Seq<Seq<TokenSpec>>>,
    /// The export index: for every export the file that declared it last.
    pub exports: Map<Seq<char>, nat>,
    /// The exports in the order in which they were first declared.
    pub export_order: Seq<Seq<char>>,
    /// The loaded files, in the order of loading.
    pub files: Seq<FileSpec>,
}

/// The variants recorded for `name`, none if the name is unseen.
pub open spec fn variants_of(
    types: Map<Seq<char>, Seq<Seq<TokenSpec>>>,
    name: Seq<char>,
) -> Seq<Seq<TokenSpec>> {
    if types.contains_key(name) {
        types[name]
    } else {
        Seq::empty()
    }
}

/// The index that merging `tokens` under `name` yields: that of the equal
/// variant, or the next free one.
pub open spec fn merge_index(
    types: Map<Seq<char>, Seq<Seq<TokenSpec>>>,
    name: Seq<char>,
    tokens: Seq<TokenSpec>,
) -> nat {
    let variants = variants_of(types, name);
    if variants.contains(tokens) {
        variants.index_of(tokens) as nat
    } else {
        variants.len()
    }
}

/// The type table after merging `tokens` under `name`: unchanged where an equal
/// variant is recorded, else with `tokens` as the last variant of the name.
pub open spec fn merge(
    types: Map<Seq<char>, Seq<Seq<TokenSpec>>>,
    name: Seq<char>,
    tokens: Seq<TokenSpec>,
) -> Map<Seq<char>, Seq<Seq<TokenSpec>>> {
    let variants = variants_of(types, name);
    if variants.contains(tokens) {
        types
    } else {
        types.insert(name, variants.push(tokens))
    }
}

/// Every recorded name has a variant, and no two variants of a name are equal.
pub open spec fn valid_types(types: Map<Seq<char>, Seq<Seq<TokenSpec>>>) -> bool {
    forall|name: Seq<char>| #[trigger]
        types.contains_key(name) ==> types[name].len() > 0 && types[name].no_duplicates()
}

/// The declarations that a file selects from a type table: for every name that
/// the file declares, the tokens of the variant that it uses.
pub open spec fn decls(
    types: Map<Seq<char>, Seq<Seq<TokenSpec>>>,
    file: FileSpec,
) -> Map<Seq<char>, Seq<TokenSpec>> {
    Map::new(
        |name: Seq<char>| file.records.contains_key(name),
        |name: Seq<char>| types[name][file.records[name] as int],
    )
}

impl CorpusSpec {
    /// The corpus that holds nothing.
    pub open spec fn empty() -> CorpusSpec {
        CorpusSpec {
            types: Map::empty(),
            exports: Map::empty(),
            export_order: Seq::empty(),
            files: Seq::empty(),
        }
    }

    /// The records of every file select recorded variants, every export points
    /// at a file that declares it, and the export order lists each export once.
    pub open spec fn valid(self) -> bool {
        &&& valid_types(self.types)
        &&& forall|f: int, name: Seq<char>|
            0 <= f < self.files.len() && #[trigger] self.files[f].records.contains_key(name)
                ==> self.types.contains_key(name) && self.files[f].records[name]
                < self.types[name].len()
        &&& forall|name: Seq<char>| #[trigger]
            self.exports.contains_key(name) ==> !is_typeref(name) && self.exports[name]
                < self.files.len() && self.files[self.exports[name] as int].records.contains_key(
                name,
            )
        &&& self.export_order.no_duplicates()
        &&& forall|name: Seq<char>|
            self.export_order.contains(name) <==> self.exports.contains_key(name)
    }

    /// The corpus with a new file at `path` that declares nothing yet.
    pub open spec fn open_file(self, path: Seq<char>) -> CorpusSpec {
        CorpusSpec {
            files: self.files.push(FileSpec { path, records: Map::empty() }),
            ..self
        }
    }

    /// The corpus after its last file declares `name` with the body `tokens`:
    /// the body is merged into the type table, the file records the variant,
    /// and a name that is no type reference becomes an export of the file.
    pub open spec fn declare(self, name: Seq<char>, tokens: Seq<TokenSpec>) -> CorpusSpec {
        let last = self.files.len() - 1;
        let file = self.files[last];
        CorpusSpec {
            types: merge(self.types, name, tokens),
            exports: if is_typeref(name) {
                self.exports
            } else {
                self.exports.insert(name, last as nat)
            },
            export_order: if is_typeref(name) || self.exports.contains_key(name) {
                self.export_order
            } else {
                self.export_order.push(name)
            },
            files: self.files.update(
                last,
                FileSpec {
                    path: file.path,
                    records: file.records.insert(name, merge_index(self.types, name, tokens)),
                },
            ),
        }
    }

    /// The corpus after its last file is given one more line: a line without
    /// words changes nothing.
    pub open spec fn load_line(self, line: Seq<char>) -> CorpusSpec {
        match declaration(line) {
            Some((name, tokens)) => self.declare(name, tokens),
            None => self,
        }
    }

    /// The corpus after its last file is given `lines`, one after the other.
    pub open spec fn load_lines(self, lines: Seq<Seq<char>>) -> CorpusSpec
        decreases lines.len(),
    {
        if lines.len() == 0 {
            self
        } else {
            self.load_lines(lines.drop_last()).load_line(lines.last())
        }
    }

    /// The corpus after loading the file at `path` whose content is `text`.
    pub open spec fn load_file(self, path: Seq<char>, text: Seq<char>) -> CorpusSpec {
        self.open_file(path).load_lines(lines(text))
    }
}

/// Merging keeps the type table valid, and leaves every variant where it was.
pub proof fn lemma_merge_valid(
    types: Map<Seq<char>, Seq<Seq<TokenSpec>>>,
    name: Seq<char>,
    tokens: Seq<TokenSpec>,
)
    requires
        valid_types(types),
    ensures
        valid_types(merge(types, name, tokens)),
        merge(types, name, tokens).contains_key(name),
        merge_index(types, name, tokens) < merge(types, name, tokens)[name].len(),
        merge(types, name, tokens)[name][merge_index(types, name, tokens) as int] == tokens,
        forall|other: Seq<char>| #[trigger]
            types.contains_key(other) ==> merge(types, name, tokens).contains_key(other),
        forall|other: Seq<char>, i: int|
            types.contains_key(other) && 0 <= i < types[other].len() ==> i < merge(
                types,
                name,
                tokens,
            )[other].len() && #[trigger] merge(types, name, tokens)[other][i] == types[other][i],
{
}

/// Merging the same token sequence under the same name a second time changes
/// nothing and returns the index of the first time.
pub proof fn lemma_merge_idempotent(
    types: Map<Seq<char>, Seq<Seq<TokenSpec>>>,
    name: Seq<char>,
    tokens: Seq<TokenSpec>,
)
    requires
        valid_types(types),
    ensures
        merge_index(merge(types, name, tokens), name, tokens) == merge_index(types, name, tokens),
        merge(merge(types, name, tokens), name, tokens) == merge(types, name, tokens),
{
    lemma_merge_valid(types, name, tokens);
}

/// Merging two different token sequences under one name returns two different
/// indices, in whichever state the table was; a sequence that the name has not
/// yet is given the next free index.
pub proof fn lemma_merge_distinct(
    types: Map<Seq<char>, Seq<Seq<TokenSpec>>>,
    name: Seq<char>,
    first: Seq<TokenSpec>,
    second: Seq<TokenSpec>,
)
    requires
        valid_types(types),
        first != second,
    ensures
        merge_index(merge(types, name, first), name, second) != merge_index(types, name, first),
        !variants_of(merge(types, name, first), name).contains(second) ==> merge_index(
            merge(types, name, first),
            name,
            second,
        ) == variants_of(merge(types, name, first), name).len(),
{
}

/// Merging into the type table of a valid corpus keeps the corpus valid.
pub proof fn lemma_merge_types_valid(corpus: CorpusSpec, name: Seq<char>, tokens: Seq<TokenSpec>)
    requires
        corpus.valid(),
    ensures
        (CorpusSpec { types: merge(corpus.types, name, tokens), ..corpus }).valid(),
{
}

/// Opening a file keeps the corpus valid.
pub proof fn lemma_open_file_valid(corpus: CorpusSpec, path: Seq<char>)
    requires
        corpus.valid(),
    ensures
        corpus.open_file(path).valid(),
{
}

/// A declaration keeps the corpus valid.
pub proof fn lemma_declare_valid(corpus: CorpusSpec, name: Seq<char>, tokens: Seq<TokenSpec>)
    requires
        corpus.valid(),
        corpus.files.len() > 0,
    ensures
        corpus.declare(name, tokens).valid(),
        corpus.declare(name, tokens).files.len() == corpus.files.len(),
{
    let after = corpus.declare(name, tokens);
    assert(after.export_order.no_duplicates()) by {
        if !(is_typeref(name) || corpus.exports.contains_key(name)) {
            assert(!corpus.export_order.contains(name));
        }
    }
    assert forall|other: Seq<char>|
        after.export_order.contains(other) <==> after.exports.contains_key(other) by {
        if after.export_order.contains(other) {
            let i = after.export_order.index_of(other);
            if i < corpus.export_order.len() {
                assert(corpus.export_order.contains(corpus.export_order[i]));
            }
        }
        if after.exports.contains_key(other) {
            if corpus.exports.contains_key(other) {
                assert(corpus.export_order.contains(other));
                let i = corpus.export_order.index_of(other);
                assert(after.export_order[i] == other);
            } else {
                assert(after.export_order[corpus.export_order.len() as int] == other);
            }
        }
    }
}

/// Loading lines into the last file keeps the corpus valid.
pub proof fn lemma_load_lines_valid(corpus: CorpusSpec, lines: Seq<Seq<char>>)
    requires
        corpus.valid(),
        corpus.files.len() > 0,
    ensures
        corpus.load_lines(lines).valid(),
        corpus.load_lines(lines).files.len() == corpus.files.len(),
    decreases lines.len(),
{
    if lines.len() > 0 {
        lemma_load_lines_valid(corpus, lines.drop_last());
        let before = corpus.load_lines(lines.drop_last());
        match declaration(lines.last()) {
            Some((name, tokens)) => {
                lemma_declare_valid(before, name, tokens);
            },
            None => {},
        }
    }
}

/// Loading a file keeps the corpus valid.
pub proof fn lemma_load_file_valid(corpus: CorpusSpec, path: Seq<char>, text: Seq<char>)
    requires
        corpus.valid(),
    ensures
        corpus.load_file(path, text).valid(),
        corpus.load_file(path, text).files.len() == corpus.files.len() + 1,
{
    lemma_load_lines_valid(corpus.open_file(path), lines(text));
}

} // verus!
