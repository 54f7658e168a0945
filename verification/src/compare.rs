//! The structural comparator: walks the type graphs of two corpora in
//! lock-step, from every export that both have, and records every type whose
//! two declarations differ.

use vstd::prelude::*;
use vstd::hash_set::StringHashSet;
use vstd::string::StringExecFns;
use crate::changes::triples_of;
use crate::changes::TypeChanges;
use crate::model::decls;
use crate::model::CorpusSpec;
use crate::model::FileSpec;
use crate::corpus::SymCorpus;
use crate::corpus::SymFile;
use crate::graph::changes_from;
use crate::graph::lemma_reaches_self;
use crate::graph::lemma_walk_ends;
use crate::graph::lemma_walk_goes_on;
use crate::graph::lemma_walk_reaches;
use crate::graph::met;
use crate::graph::reached;
use crate::graph::reaches;
use crate::graph::resolved;
use crate::graph::step;
use crate::graph::walking;
use crate::token::Token;
use crate::token::TokenSpec;

verus! {

/// A walk came to a type that one of the two files does not declare.
#[derive(Debug)]
pub struct UnknownType {
    /// The name of the type.
    pub name: String,
    /// The path of the file that lacks it.
    pub path: String,
}

impl UnknownType {
    /// Whether the error names a type that `file` lacks or, where `file` has
    /// it, that `other_file` lacks.
    pub open spec fn blames(
        &self,
        file: FileSpec,
        other_file: FileSpec,
    ) -> bool {
        if !file.records.contains_key(self.name@) {
            self.path@ == file.path
        } else {
            !other_file.records.contains_key(self.name@) && self.path@ == other_file.path
        }
    }

    /// The text of the error.
    pub fn message(&self) -> (text: String)
        ensures
            text@ == "Type "@ + self.name@ + " is not known in file "@ + self.path@,
    {
        let mut text = String::from_str("Type ");
        text.append(self.name.as_str());
        text.append(" is not known in file ");
        text.append(self.path.as_str());
        text
    }
}

/// Whether both corpora export `name`.
pub open spec fn shared(a: CorpusSpec, b: CorpusSpec, name: Seq<char>) -> bool {
    a.exports.contains_key(name) && b.exports.contains_key(name)
}

/// The declarations of the file that exports `name`.
pub open spec fn export_decls(corpus: CorpusSpec, name: Seq<char>) -> Map<
    Seq<char>,
    Seq<TokenSpec>,
> {
    decls(corpus.types, corpus.files[corpus.exports[name] as int])
}

/// Whether, for every export that both corpora have, both exporting files
/// declare every type that the walk from the export comes to.
pub open spec fn all_resolved(a: CorpusSpec, b: CorpusSpec) -> bool {
    forall|name: Seq<char>| #[trigger]
        shared(a, b, name) ==> resolved(
            export_decls(a, name),
            export_decls(b, name),
            name,
            Set::empty(),
        )
}

/// The changes between two corpora: those that the walk from any export that
/// both have meets, between the two files that export it.
pub open spec fn all_changes(a: CorpusSpec, b: CorpusSpec) -> Set<
    (Seq<char>, Seq<TokenSpec>, Seq<TokenSpec>),
> {
    Set::new(
        |change: (Seq<char>, Seq<TokenSpec>, Seq<TokenSpec>)|
            exists|name: Seq<char>| #[trigger]
                shared(a, b, name) && changes_from(
                    export_decls(a, name),
                    export_decls(b, name),
                    name,
                    Set::empty(),
                ).contains(change),
    )
}

/// Whether the walk from export `k` of the first corpus is the first, in its
/// export order, that comes to a type that one of the exporting files lacks.
pub open spec fn fails_first_at(a: CorpusSpec, b: CorpusSpec, k: int) -> bool {
    &&& 0 <= k < a.export_order.len()
    &&& shared(a, b, a.export_order[k])
    &&& !resolved(
        export_decls(a, a.export_order[k]),
        export_decls(b, a.export_order[k]),
        a.export_order[k],
        Set::empty(),
    )
    &&& forall|l: int|
        0 <= l < k && shared(a, b, #[trigger] a.export_order[l]) ==> resolved(
            export_decls(a, a.export_order[l]),
            export_decls(b, a.export_order[l]),
            a.export_order[l],
            Set::empty(),
        )
}

/// The changes met from the first `upto` exports of the first corpus.
pub open spec fn changes_upto(a: CorpusSpec, b: CorpusSpec, upto: int) -> Set<
    (Seq<char>, Seq<TokenSpec>, Seq<TokenSpec>),
> {
    Set::new(
        |change: (Seq<char>, Seq<TokenSpec>, Seq<TokenSpec>)|
            exists|k: int|
                0 <= k < upto && k < a.export_order.len() && shared(
                    a,
                    b,
                    #[trigger] a.export_order[k],
                ) && changes_from(
                    export_decls(a, a.export_order[k]),
                    export_decls(b, a.export_order[k]),
                    a.export_order[k],
                    Set::empty(),
                ).contains(change),
    )
}

/// The test for an export that `exports` lacks.
pub open spec fn absent_from(exports: Map<Seq<char>, nat>) -> spec_fn(Seq<char>) -> bool {
    |name: Seq<char>| !exports.contains_key(name)
}

/// Filtering one element more either keeps it or passes it over.
pub proof fn lemma_filter_next<A>(s: Seq<A>, pred: spec_fn(A) -> bool, i: int)
    requires
        0 <= i < s.len(),
    ensures
        s.take(i + 1).filter(pred) == if pred(s[i]) {
            s.take(i).filter(pred).push(s[i])
        } else {
            s.take(i).filter(pred)
        },
{
    reveal(Seq::filter);
    assert(s.take(i + 1).drop_last() =~= s.take(i));
}

/// The outcome of comparing two corpora.
pub struct Comparison<'a> {
    /// The exports that only the first corpus has, in its export order.
    pub only_in_a: Vec<&'a str>,
    /// The exports that only the second corpus has, in its export order.
    pub only_in_b: Vec<&'a str>,
    /// The types that differ.
    pub changes: TypeChanges<'a>,
}

/// A corpus compared against itself shows no change.
pub proof fn lemma_self_comparison(corpus: CorpusSpec)
    ensures
        all_changes(corpus, corpus) == Set::<(Seq<char>, Seq<TokenSpec>, Seq<TokenSpec>)>::empty(),
        corpus.valid() ==> corpus.export_order.filter(absent_from(corpus.exports)).len() == 0,
{
    if corpus.valid() {
        lemma_none_absent(corpus.export_order, corpus.exports, corpus.export_order.len() as int);
        assert(corpus.export_order.take(corpus.export_order.len() as int) =~= corpus.export_order);
    }
}

proof fn lemma_none_absent(order: Seq<Seq<char>>, exports: Map<Seq<char>, nat>, upto: int)
    requires
        0 <= upto <= order.len(),
        forall|name: Seq<char>| order.contains(name) ==> exports.contains_key(name),
    ensures
        order.take(upto).filter(absent_from(exports)).len() == 0,
    decreases upto,
{
    if upto > 0 {
        lemma_none_absent(order, exports, upto - 1);
        lemma_filter_next(order, absent_from(exports), upto - 1);
        assert(order.contains(order[upto - 1]));
    }
}

impl SymCorpus {
    /// Compares this corpus, A, with `other`, B.
    ///
    /// An export that only one of them has is listed as such and not looked at
    /// any further. From every export that both have, the types are compared as
    /// [`SymCorpus::compare_types`] does, each walk with a fresh set of
    /// processed names, all into one set of change records. The comparison
    /// fails with the first walk, in the export order of A, that comes to a
    /// type that one of the exporting files lacks.
    pub fn compare_with<'a>(&'a self, other: &'a SymCorpus) -> (res: Result<
        Comparison<'a>,
        UnknownType,
    >)
        requires
            self.wf(),
            other.wf(),
        ensures
            res is Ok <==> all_resolved(self@, other@),
            res matches Ok(found) ==> {
                &&& found.only_in_a.deep_view() == self@.export_order.filter(
                    absent_from(other@.exports),
                )
                &&& found.only_in_b.deep_view() == other@.export_order.filter(
                    absent_from(self@.exports),
                )
                &&& found.changes.wf()
                &&& triples_of(found.changes@) == all_changes(self@, other@)
            },
            res matches Err(e) ==> exists|k: int| #[trigger]
                fails_first_at(self@, other@, k) && e.blames(
                    self@.files[self@.exports[self@.export_order[k]] as int],
                    other@.files[other@.exports[self@.export_order[k]] as int],
                ) && reaches(
                    export_decls(self@, self@.export_order[k]),
                    export_decls(other@, self@.export_order[k]),
                    self@.export_order[k],
                    Set::empty(),
                    e.name@,
                ),
    {
        let ghost a = self@;
        let ghost b = other@;
        let mut changes = TypeChanges::new();
        let mut only_in_a: Vec<&'a str> = Vec::new();
        let mut only_in_b: Vec<&'a str> = Vec::new();

        let count: usize = self.export_count();
        let mut i: usize = 0;
        while i < count
            invariant
                self.wf(),
                other.wf(),
                a == self@,
                b == other@,
                count == a.export_order.len(),
                i <= count,
                changes.wf(),
                only_in_a.deep_view() == a.export_order.take(i as int).filter(
                    absent_from(b.exports),
                ),
                triples_of(changes@) == changes_upto(a, b, i as int),
                forall|k: int|
                    0 <= k < i && shared(a, b, #[trigger] a.export_order[k]) ==> resolved(
                        export_decls(a, a.export_order[k]),
                        export_decls(b, a.export_order[k]),
                        a.export_order[k],
                        Set::empty(),
                    ),
            decreases count - i,
        {
            let (name, file) = self.export_at(i);
            proof {
                lemma_filter_next(a.export_order, absent_from(b.exports), i as int);
            }
            match other.export_file(name) {
                Some(other_file) => {
                    let mut processed = StringHashSet::new();
                    match self.compare_types(
                        other,
                        file,
                        other_file,
                        name,
                        &mut processed,
                        &mut changes,
                    ) {
                        Ok(()) => {},
                        Err(e) => {
                            proof {
                                assert(fails_first_at(a, b, i as int));
                            }
                            return Err(e);
                        },
                    }
                },
                None => {
                    only_in_a.push(name);
                },
            }
            i += 1;
        }
        proof {
            assert(a.export_order.take(count as int) =~= a.export_order);
            assert forall|name: Seq<char>| #[trigger] shared(a, b, name) implies resolved(
                export_decls(a, name),
                export_decls(b, name),
                name,
                Set::empty(),
            ) by {
                assert(a.export_order.contains(name));
            }
            assert forall|change: (Seq<char>, Seq<TokenSpec>, Seq<TokenSpec>)|
                all_changes(a, b).contains(change) <==> changes_upto(a, b, count as int).contains(
                    change,
                ) by {
                if all_changes(a, b).contains(change) {
                    let name = choose|name: Seq<char>| #[trigger]
                        shared(a, b, name) && changes_from(
                            export_decls(a, name),
                            export_decls(b, name),
                            name,
                            Set::empty(),
                        ).contains(change);
                    assert(a.export_order.contains(name));
                }
            }
        }

        // Look for the exports that B has and A has not.
        let other_count: usize = other.export_count();
        let mut j: usize = 0;
        while j < other_count
            invariant
                self.wf(),
                other.wf(),
                a == self@,
                b == other@,
                other_count == b.export_order.len(),
                j <= other_count,
                only_in_b.deep_view() == b.export_order.take(j as int).filter(
                    absent_from(a.exports),
                ),
            decreases other_count - j,
        {
            let other_name = other.export_name(j);
            proof {
                lemma_filter_next(b.export_order, absent_from(a.exports), j as int);
            }
            if self.export_file(other_name).is_none() {
                only_in_b.push(other_name);
            }
            j += 1;
        }
        proof {
            assert(b.export_order.take(other_count as int) =~= b.export_order);
        }
        Ok(Comparison { only_in_a, only_in_b, changes })
    }

    /// Compares the type `name` as `file` of this corpus and `other_file` of
    /// `other` declare it, and then every type that both declarations refer to
    /// at the same position, and so on. Names in `processed` are passed over;
    /// every name that the walk comes to joins them.
    ///
    /// Every type of the walk whose two token sequences differ, in length or at
    /// any position, is recorded in `changes`. The walk fails when it comes to
    /// a type that one of the two files lacks; what `processed` and `changes`
    /// hold then is not defined any further.
    pub fn compare_types<'a>(
        &'a self,
        other: &'a SymCorpus,
        file: &SymFile,
        other_file: &SymFile,
        name: &'a str,
        processed: &mut StringHashSet,
        changes: &mut TypeChanges<'a>,
    ) -> (res: Result<(), UnknownType>)
        requires
            self.wf(),
            other.wf(),
            self.owns(file),
            other.owns(other_file),
            old(changes).wf(),
        ensures
            final(changes).wf(),
            res is Ok <==> resolved(
                decls(self@.types, file@),
                decls(other@.types, other_file@),
                name@,
                old(processed)@,
            ),
            res is Ok ==> final(processed)@ == old(processed)@.union(
                reached(
                    decls(self@.types, file@),
                    decls(other@.types, other_file@),
                    name@,
                    old(processed)@,
                ),
            ),
            res is Ok ==> triples_of(final(changes)@) == triples_of(old(changes)@).union(
                changes_from(
                    decls(self@.types, file@),
                    decls(other@.types, other_file@),
                    name@,
                    old(processed)@,
                ),
            ),
            res matches Err(e) ==> e.blames(file@, other_file@) && reaches(
                decls(self@.types, file@),
                decls(other@.types, other_file@),
                name@,
                old(processed)@,
                e.name@,
            ),
        decreases decls(self@.types, file@).dom().difference(old(processed)@).len(),
    {
        let ghost da = decls(self@.types, file@);
        let ghost db = decls(other@.types, other_file@);
        let ghost seen = processed@;
        let ghost recorded = triples_of(changes@);
        proof {
            self.lemma_owns(file);
            assert(da.dom() =~= file@.records.dom());
        }
        if processed.contains(name) {
            return Ok(());
        }
        processed.insert(name.to_owned());
        proof {
            lemma_reaches_self(da, db, name@, seen);
        }

        let tokens = match Self::get_type_tokens(self, file, name) {
            Some(tokens) => tokens,
            None => {
                return Err(UnknownType { name: name.to_owned(), path: file.path().to_owned() });
            },
        };
        let other_tokens = match Self::get_type_tokens(other, other_file, name) {
            Some(tokens) => tokens,
            None => {
                return Err(
                    UnknownType { name: name.to_owned(), path: other_file.path().to_owned() },
                );
            },
        };
        let ghost ta = tokens.deep_view();
        let ghost tb = other_tokens.deep_view();

        let mut is_equal = tokens.len() == other_tokens.len();
        let min_tokens: usize = if tokens.len() < other_tokens.len() {
            tokens.len()
        } else {
            other_tokens.len()
        };
        let mut i: usize = 0;
        while i < min_tokens
            invariant
                self.wf(),
                other.wf(),
                self.owns(file),
                other.owns(other_file),
                changes.wf(),
                da == decls(self@.types, file@),
                db == decls(other@.types, other_file@),
                seen == old(processed)@,
                da.dom().finite(),
                da.contains_key(name@),
                db.contains_key(name@),
                ta == da[name@],
                tb == db[name@],
                ta == tokens.deep_view(),
                tb == other_tokens.deep_view(),
                i <= min_tokens,
                min_tokens <= tokens.len(),
                min_tokens <= other_tokens.len(),
                min_tokens == tokens.len() || min_tokens == other_tokens.len(),
                walking(da, db, name@, seen, processed@),
                forall|j: int|
                    0 <= j < i && (#[trigger] ta[j]) is TypeRef && ta[j] == tb[j]
                        ==> processed@.contains(ta[j].text()),
                triples_of(changes@) == recorded.union(met(da, db, name@, seen, processed@)),
                is_equal == (tokens.len() == other_tokens.len() && forall|j: int|
                    0 <= j < i ==> ta[j] == tb[j]),
            decreases min_tokens - i,
        {
            let ghost visited = processed@;
            let equal_here = match &tokens[i] {
                Token::TypeRef(ref_name) => match &other_tokens[i] {
                    Token::TypeRef(other_ref_name) => {
                        if *ref_name == *other_ref_name {
                            proof {
                                assert(ta[i as int] == TokenSpec::TypeRef(ref_name@));
                                vstd::set_lib::lemma_len_subset(
                                    da.dom().difference(visited),
                                    da.dom().difference(seen).remove(name@),
                                );
                            }
                            match self.compare_types(
                                other,
                                file,
                                other_file,
                                ref_name.as_str(),
                                processed,
                                changes,
                            ) {
                                Ok(()) => {
                                    proof {
                                        lemma_walk_goes_on(
                                            da,
                                            db,
                                            name@,
                                            seen,
                                            visited,
                                            ref_name@,
                                        );
                                    }
                                },
                                Err(e) => {
                                    proof {
                                        lemma_walk_reaches(
                                            da,
                                            db,
                                            name@,
                                            seen,
                                            visited,
                                            ref_name@,
                                            e.name@,
                                        );
                                    }
                                    return Err(e);
                                },
                            }
                            true
                        } else {
                            false
                        }
                    },
                    Token::Atom(_) => false,
                },
                Token::Atom(word) => match &other_tokens[i] {
                    Token::Atom(other_word) => *word == *other_word,
                    Token::TypeRef(_) => false,
                },
            };
            is_equal = is_equal && equal_here;
            i += 1;
        }

        proof {
            lemma_walk_ends(da, db, name@, seen, processed@);
            assert(is_equal == (ta =~= tb));
        }
        if !is_equal {
            Self::record_type_change(name, tokens, other_tokens, changes);
        }
        Ok(())
    }
}

} // verus!
