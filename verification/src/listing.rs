//! The listing of a type: its declaration and those of all the types that it
//! refers to, directly or not, each once, every type after the types that it
//! refers to.

use vstd::prelude::*;
use vstd::hash_set::StringHashSet;
use vstd::string::StringExecFns;
use crate::compare::UnknownType;
use crate::model::decls;
use crate::model::CorpusSpec;
use crate::corpus::SymCorpus;
use crate::corpus::SymFile;
use crate::token::Token;
use crate::token::TokenSpec;

verus! {

/// Something that a listing has yet to do.
pub enum Pending {
    /// List the type of this name, unless it is processed.
    Visit(Seq<char>),
    /// Put out the declaration of this name.
    Emit(Seq<char>),
}

/// The visits that the references among `tokens` ask for, that of the first
/// reference last, since an agenda is worked off from its end.
pub open spec fn pending_refs(tokens: Seq<TokenSpec>) -> Seq<Pending>
    decreases tokens.len(),
{
    if tokens.len() == 0 {
        Seq::empty()
    } else {
        match tokens.first() {
            TokenSpec::TypeRef(name) => pending_refs(tokens.drop_first()).push(
                Pending::Visit(name),
            ),
            TokenSpec::Atom(_) => pending_refs(tokens.drop_first()),
        }
    }
}

/// The outcome of a listing.
pub struct Expansion {
    /// The names whose declarations are put out, in that order.
    pub order: Seq<Seq<char>>,
    /// The names that are processed in the end.
    pub processed: Set<Seq<char>>,
}

/// Works off `agenda` from its end, in the declarations `d` of one file.
///
/// A visit to a processed name does nothing. A visit to any other name marks
/// it processed and puts on the agenda its own declaration and, above that,
/// visits to the types that the declaration refers to, the first reference
/// uppermost. There is no outcome where a name is visited that the file does
/// not declare.
pub open spec fn expand(
    d: Map<Seq<char>, Seq<TokenSpec>>,
    agenda: Seq<Pending>,
    processed: Set<Seq<char>>,
) -> Option<Expansion>
    decreases d.dom().difference(processed).len(), agenda.len(),
    when d.dom().finite()
{
    if agenda.len() == 0 {
        Some(Expansion { order: Seq::empty(), processed })
    } else {
        match agenda.last() {
            Pending::Emit(name) => match expand(d, agenda.drop_last(), processed) {
                Some(rest) => Some(
                    Expansion { order: seq![name] + rest.order, processed: rest.processed },
                ),
                None => None,
            },
            Pending::Visit(name) => if processed.contains(name) {
                expand(d, agenda.drop_last(), processed)
            } else if !d.contains_key(name) {
                None
            } else {
                proof {
                    lemma_fewer_left(d.dom(), processed, name);
                }
                expand(
                    d,
                    agenda.drop_last().push(Pending::Emit(name)) + pending_refs(d[name]),
                    processed.insert(name),
                )
            },
        }
    }
}

/// The name at which working off `agenda` fails, where it fails: the first
/// name visited that the file does not declare.
pub open spec fn halts_at(
    d: Map<Seq<char>, Seq<TokenSpec>>,
    agenda: Seq<Pending>,
    processed: Set<Seq<char>>,
) -> Seq<char>
    decreases d.dom().difference(processed).len(), agenda.len(),
    when d.dom().finite()
{
    if agenda.len() == 0 {
        Seq::empty()
    } else {
        match agenda.last() {
            Pending::Emit(_) => halts_at(d, agenda.drop_last(), processed),
            Pending::Visit(name) => if processed.contains(name) {
                halts_at(d, agenda.drop_last(), processed)
            } else if !d.contains_key(name) {
                name
            } else {
                proof {
                    lemma_fewer_left(d.dom(), processed, name);
                }
                halts_at(
                    d,
                    agenda.drop_last().push(Pending::Emit(name)) + pending_refs(d[name]),
                    processed.insert(name),
                )
            },
        }
    }
}

/// Marking a declared name processed leaves fewer declared names to process.
pub proof fn lemma_fewer_left(dom: Set<Seq<char>>, processed: Set<Seq<char>>, name: Seq<char>)
    requires
        dom.finite(),
        dom.contains(name),
        !processed.contains(name),
    ensures
        dom.difference(processed.insert(name)).len() < dom.difference(processed).len(),
{
    assert(dom.difference(processed.insert(name)) =~= dom.difference(processed).remove(name));
}

/// The listing of the type `name` in the declarations `d`.
pub open spec fn listing(
    d: Map<Seq<char>, Seq<TokenSpec>>,
    name: Seq<char>,
    processed: Set<Seq<char>>,
) -> Option<Expansion> {
    expand(d, seq![Pending::Visit(name)], processed)
}

/// The text of a declaration: the name, and after it every token behind a
/// space.
pub open spec fn declaration_text(name: Seq<char>, tokens: Seq<TokenSpec>) -> Seq<char>
    decreases tokens.len(),
{
    if tokens.len() == 0 {
        name
    } else {
        declaration_text(name, tokens.drop_last()).push(' ') + tokens.last().text()
    }
}

/// The texts of the declarations of `order`, one line each.
pub open spec fn declaration_lines(
    d: Map<Seq<char>, Seq<TokenSpec>>,
    order: Seq<Seq<char>>,
) -> Seq<Seq<char>> {
    Seq::new(order.len(), |i: int| declaration_text(order[i], d[order[i]]))
}

/// The line that introduces the listing of `name` as the file at `path`
/// declares it.
pub open spec fn heading(name: Seq<char>, path: Seq<char>) -> Seq<char> {
    "Found type "@ + name + " in "@ + path + ":"@
}

/// The listings of `name` in the first `upto` files of a corpus: for every file
/// that declares the name a heading and then the listing. There is none where
/// one of these listings comes to a type that its file lacks.
pub open spec fn report(corpus: CorpusSpec, name: Seq<char>, upto: int) -> Option<Seq<Seq<char>>>
    decreases upto,
{
    if upto <= 0 {
        Some(Seq::empty())
    } else {
        let file = corpus.files[upto - 1];
        match report(corpus, name, upto - 1) {
            Some(lines) => if file.records.contains_key(name) {
                match listing(decls(corpus.types, file), name, Set::empty()) {
                    Some(found) => Some(
                        lines.push(heading(name, file.path)) + declaration_lines(
                            decls(corpus.types, file),
                            found.order,
                        ),
                    ),
                    None => None,
                }
            } else {
                Some(lines)
            },
            None => None,
        }
    }
}

/// Whether file `k` is the first for which the listing of `name` fails.
pub open spec fn fails_at(corpus: CorpusSpec, name: Seq<char>, k: int) -> bool {
    &&& 0 <= k < corpus.files.len()
    &&& report(corpus, name, k) is Some
    &&& report(corpus, name, k + 1) is None
}

/// Something that a listing has yet to do.
enum Todo<'a> {
    Visit(&'a str),
    Emit(&'a str, &'a Vec<Token>),
}

impl<'a> View for Todo<'a> {
    type V = Pending;

    closed spec fn view(&self) -> Pending {
        match self {
            Todo::Visit(name) => Pending::Visit(name@),
            Todo::Emit(name, _) => Pending::Emit(name@),
        }
    }
}

/// The agenda that a stack of things to do stands for.
spec fn agenda_of(stack: Seq<Todo>) -> Seq<Pending> {
    Seq::new(stack.len(), |i: int| stack[i]@)
}

/// The text of the declaration of `name` with the body `tokens`.
pub fn declaration_line(name: &str, tokens: &Vec<Token>) -> (line: String)
    ensures
        line@ == declaration_text(name@, tokens.deep_view()),
{
    let ghost body = tokens.deep_view();
    let mut line = String::from_str(name);
    for i in 0..tokens.len()
        invariant
            body == tokens.deep_view(),
            line@ == declaration_text(name@, body.take(i as int)),
    {
        line.append(" ");
        line.append(tokens[i].as_str());
        proof {
            reveal_strlit(" ");
            assert(body.take(i + 1).drop_last() =~= body.take(i as int));
            assert(line@ =~= declaration_text(name@, body.take(i as int)).push(' ')
                + body[i as int].text());
        }
    }
    assert(body.take(tokens.len() as int) =~= body);
    line
}

impl SymCorpus {
    /// Lists the type `name` as `file` declares it: the declarations of the
    /// type and of every type that it refers to, directly or not, each on a
    /// line, each once, every one after those that it refers to. Names in
    /// `processed` are passed over; every listed name joins them.
    ///
    /// The listing fails at the first type that it comes to and that the file
    /// lacks; what `processed` holds then is not defined any further.
    pub fn print_file_type(
        &self,
        file: &SymFile,
        name: &str,
        processed: &mut StringHashSet,
    ) -> (res: Result<Vec<String>, UnknownType>)
        requires
            self.wf(),
            self.owns(file),
        ensures
            match res {
                Ok(lines) => {
                    &&& listing(decls(self@.types, file@), name@, old(processed)@) matches Some(
                        found,
                    )
                    &&& lines.deep_view() == declaration_lines(
                        decls(self@.types, file@),
                        found.order,
                    )
                    &&& final(processed)@ == found.processed
                },
                Err(e) => {
                    &&& listing(decls(self@.types, file@), name@, old(processed)@) is None
                    &&& e.name@ == halts_at(
                        decls(self@.types, file@),
                        seq![Pending::Visit(name@)],
                        old(processed)@,
                    )
                    &&& !file@.records.contains_key(e.name@)
                    &&& e.path@ == file@.path
                },
            },
    {
        let ghost d = decls(self@.types, file@);
        let ghost goal = listing(d, name@, processed@);
        let ghost halt = halts_at(d, seq![Pending::Visit(name@)], processed@);
        proof {
            self.lemma_owns(file);
            assert(d.dom() =~= file@.records.dom());
        }
        let mut lines: Vec<String> = Vec::new();
        let ghost mut order: Seq<Seq<char>> = Seq::empty();
        let mut stack: Vec<Todo> = Vec::new();
        stack.push(Todo::Visit(name));
        proof {
            assert(agenda_of(stack@) =~= seq![Pending::Visit(name@)]);
        }
        while stack.len() > 0
            invariant
                self.wf(),
                self.owns(file),
                d == decls(self@.types, file@),
                d.dom().finite(),
                lines.deep_view() == declaration_lines(d, order),
                goal == listing(d, name@, old(processed)@),
                halt == halts_at(d, seq![Pending::Visit(name@)], old(processed)@),
                halt == halts_at(d, agenda_of(stack@), processed@),
                forall|i: int|
                    0 <= i < stack@.len() ==> (#[trigger] stack@[i] matches Todo::Emit(n, tokens)
                        ==> d.contains_key(n@) && tokens.deep_view() == d[n@]),
                match expand(d, agenda_of(stack@), processed@) {
                    Some(rest) => goal == Some(
                        Expansion { order: order + rest.order, processed: rest.processed },
                    ),
                    None => goal is None,
                },
            decreases d.dom().difference(processed@).len(), stack@.len(),
        {
            let ghost agenda = agenda_of(stack@);
            let ghost full = stack@;
            let top = stack.pop().unwrap();
            proof {
                assert(agenda_of(stack@) =~= agenda.drop_last());
            }
            match top {
                Todo::Emit(entry, tokens) => {
                    let line = declaration_line(entry, tokens);
                    let ghost listed = lines.deep_view();
                    lines.push(line);
                    proof {
                        let longer = order.push(entry@);
                        assert(full[full.len() - 1] matches Todo::Emit(n, t) && n@ == entry@
                            && t.deep_view() == tokens.deep_view());
                        assert(lines.deep_view() =~= listed.push(line@));
                        match expand(d, agenda.drop_last(), processed@) {
                            Some(rest) => {
                                assert(longer + rest.order =~= order + (seq![entry@]
                                    + rest.order));
                            },
                            None => {},
                        }
                        order = longer;
                    }
                },
                Todo::Visit(entry) => {
                    if !processed.contains(entry) {
                        let tokens = match Self::get_type_tokens(self, file, entry) {
                            Some(tokens) => tokens,
                            None => {
                                return Err(
                                    UnknownType {
                                        name: entry.to_owned(),
                                        path: file.path().to_owned(),
                                    },
                                );
                            },
                        };
                        let ghost body = tokens.deep_view();
                        proof {
                            lemma_fewer_left(d.dom(), processed@, entry@);
                        }
                        processed.insert(entry.to_owned());
                        stack.push(Todo::Emit(entry, tokens));
                        let ghost base = agenda_of(stack@);
                        proof {
                            assert(base =~= agenda.drop_last().push(Pending::Emit(entry@)));
                        }
                        let mut i: usize = tokens.len();
                        while i > 0
                            invariant
                                i <= tokens.len(),
                                body == tokens.deep_view(),
                                agenda_of(stack@) == base + pending_refs(body.skip(i as int)),
                                forall|k: int|
                                    0 <= k < stack@.len() ==> (#[trigger] stack@[k] matches Todo::Emit(
                                        n,
                                        tokens,
                                    ) ==> d.contains_key(n@) && tokens.deep_view() == d[n@]),
                            decreases i,
                        {
                            i -= 1;
                            let ghost before = agenda_of(stack@);
                            proof {
                                assert(body.skip(i as int).drop_first() =~= body.skip(i + 1));
                            }
                            match &tokens[i] {
                                Token::TypeRef(ref_name) => {
                                    stack.push(Todo::Visit(ref_name.as_str()));
                                    proof {
                                        assert(agenda_of(stack@) =~= before.push(
                                            Pending::Visit(ref_name@),
                                        ));
                                    }
                                },
                                Token::Atom(_) => {},
                            }
                        }
                        proof {
                            assert(body.skip(0) =~= body);
                        }
                    }
                },
            }
        }
        Ok(lines)
    }

    /// Lists the type `name` for every loaded file that declares it, in the
    /// order of loading: a heading with the path of the file, then the listing
    /// of [`SymCorpus::print_file_type`], begun with nothing processed. It
    /// fails with the first file whose listing fails.
    pub fn print_type(&self, name: &str) -> (res: Result<Vec<String>, UnknownType>)
        requires
            self.wf(),
        ensures
            match res {
                Ok(lines) => report(self@, name@, self@.files.len() as int) == Some(
                    lines.deep_view(),
                ),
                Err(e) => {
                    &&& report(self@, name@, self@.files.len() as int) is None
                    &&& exists|k: int| #[trigger]
                        fails_at(self@, name@, k) && e.name@ == halts_at(
                            decls(self@.types, self@.files[k]),
                            seq![Pending::Visit(name@)],
                            Set::empty(),
                        ) && !self@.files[k].records.contains_key(e.name@) && e.path@
                            == self@.files[k].path
                },
            },
    {
        let mut lines: Vec<String> = Vec::new();
        let count: usize = self.file_count();
        for f in 0..count
            invariant
                self.wf(),
                count == self@.files.len(),
                report(self@, name@, f as int) == Some(lines.deep_view()),
        {
            let file = self.file(f);
            proof {
                self.lemma_owns(file);
            }
            if file.declares(name) {
                let mut text = String::from_str("Found type ");
                text.append(name);
                text.append(" in ");
                text.append(file.path());
                text.append(":");
                lines.push(text);
                let mut processed = StringHashSet::new();
                match self.print_file_type(file, name, &mut processed) {
                    Ok(mut listed) => {
                        lines.append(&mut listed);
                    },
                    Err(e) => {
                        proof {
                            lemma_report_fails(self@, name@, f + 1, count as int);
                            assert(fails_at(self@, name@, f as int));
                        }
                        return Err(e);
                    },
                }
            }
        }
        Ok(lines)
    }
}

/// Once the listing fails for one file, the report fails for any more files.
proof fn lemma_report_fails(corpus: CorpusSpec, name: Seq<char>, failed: int, upto: int)
    requires
        report(corpus, name, failed) is None,
        failed <= upto,
    ensures
        report(corpus, name, upto) is None,
    decreases upto - failed,
{
    if failed < upto {
        lemma_report_fails(corpus, name, failed, upto - 1);
    }
}

} // verus!
