//! What holds of every listing: it puts out no type twice, and it puts out
//! exactly the types that are reached through references.

use vstd::prelude::*;
use crate::graph::lemma_closed_holds_reached;
use crate::graph::lemma_reaches_extend;
use crate::graph::lemma_reaches_self;
use crate::graph::linked;
use crate::graph::reached;
use crate::graph::reaches;
use crate::graph::resolved;
use crate::graph::step;
use crate::listing::expand;
use crate::listing::halts_at;
use crate::listing::lemma_fewer_left;
use crate::listing::listing;
use crate::listing::pending_refs;
use crate::listing::Pending;
use crate::token::TokenSpec;

verus! {

/// Whether every declaration that waits on the agenda is that of a processed
/// name, and no name waits twice.
pub open spec fn orderly(agenda: Seq<Pending>, processed: Set<Seq<char>>) -> bool {
    &&& forall|i: int|
        0 <= i < agenda.len() ==> (#[trigger] agenda[i] matches Pending::Emit(name)
            ==> processed.contains(name))
    &&& forall|i: int, j: int|
        0 <= i < j < agenda.len() && #[trigger] agenda[i] is Emit && #[trigger] agenda[j] is Emit
            ==> agenda[i] != agenda[j]
}

/// Working off an orderly agenda puts out no name twice, and only names that
/// waited on the agenda or were not processed; and it processes, besides the
/// names processed before, every name that it puts out.
pub proof fn lemma_expand_once(
    d: Map<Seq<char>, Seq<TokenSpec>>,
    agenda: Seq<Pending>,
    processed: Set<Seq<char>>,
)
    requires
        d.dom().finite(),
        orderly(agenda, processed),
        expand(d, agenda, processed) is Some,
    ensures
        expand(d, agenda, processed)->0.order.no_duplicates(),
        processed.subset_of(expand(d, agenda, processed)->0.processed),
        forall|k: int|
            0 <= k < expand(d, agenda, processed)->0.order.len() ==> {
                let name = #[trigger] expand(d, agenda, processed)->0.order[k];
                &&& expand(d, agenda, processed)->0.processed.contains(name)
                &&& (!processed.contains(name) || exists|i: int|
                    0 <= i < agenda.len() && #[trigger] agenda[i] == Pending::Emit(name))
            },
    decreases d.dom().difference(processed).len(), agenda.len(),
{
    if agenda.len() > 0 {
        let below = agenda.drop_last();
        match agenda.last() {
            Pending::Emit(name) => {
                lemma_expand_once(d, below, processed);
            },
            Pending::Visit(name) => {
                if processed.contains(name) {
                    lemma_expand_once(d, below, processed);
                } else {
                    let refs = pending_refs(d[name]);
                    let next = below.push(Pending::Emit(name)) + refs;
                    let marked = processed.insert(name);
                    lemma_pending_refs_visit(d[name]);
                    lemma_fewer_left(d.dom(), processed, name);
                    lemma_expand_once(d, next, marked);
                }
            },
        }
    }
}

/// The references among tokens ask for visits only.
pub proof fn lemma_pending_refs_visit(tokens: Seq<TokenSpec>)
    ensures
        forall|i: int| 0 <= i < pending_refs(tokens).len() ==> #[trigger] pending_refs(tokens)[i] is Visit,
    decreases tokens.len(),
{
    if tokens.len() > 0 {
        lemma_pending_refs_visit(tokens.drop_first());
    }
}

/// A listing puts out no name twice, and no name that was processed before.
pub proof fn lemma_listing_once(
    d: Map<Seq<char>, Seq<TokenSpec>>,
    name: Seq<char>,
    processed: Set<Seq<char>>,
)
    requires
        d.dom().finite(),
        listing(d, name, processed) is Some,
    ensures
        listing(d, name, processed)->0.order.no_duplicates(),
        forall|k: int|
            0 <= k < listing(d, name, processed)->0.order.len() ==> !processed.contains(
                #[trigger] listing(d, name, processed)->0.order[k],
            ),
{
    let agenda = seq![Pending::Visit(name)];
    lemma_expand_once(d, agenda, processed);
}

/// Whether a visit to `name` waits on the agenda.
pub open spec fn waits(agenda: Seq<Pending>, name: Seq<char>) -> bool {
    exists|i: int| 0 <= i < agenda.len() && #[trigger] agenda[i] == Pending::Visit(name)
}

/// The references among tokens ask for a visit to every type that the tokens
/// refer to, and to no other.
pub proof fn lemma_pending_refs(tokens: Seq<TokenSpec>, name: Seq<char>)
    ensures
        waits(pending_refs(tokens), name) <==> linked(tokens, tokens, name),
    decreases tokens.len(),
{
    if tokens.len() > 0 {
        let rest = tokens.drop_first();
        lemma_pending_refs(rest, name);
        let pending = pending_refs(tokens);
        if waits(pending_refs(rest), name) {
            let i = choose|i: int|
                0 <= i < pending_refs(rest).len() && #[trigger] pending_refs(rest)[i]
                    == Pending::Visit(name);
            assert(pending[i] == Pending::Visit(name));
            let k = choose|k: int|
                0 <= k < rest.len() && k < rest.len() && #[trigger] rest[k] == TokenSpec::TypeRef(
                    name,
                ) && rest[k] == TokenSpec::TypeRef(name);
        }
        if tokens.first() == TokenSpec::TypeRef(name) {
            assert(pending[pending.len() - 1] == Pending::Visit(name));
        }
        if linked(tokens, tokens, name) && !linked(rest, rest, name) {
            let k = choose|k: int|
                0 <= k < tokens.len() && k < tokens.len() && #[trigger] tokens[k]
                    == TokenSpec::TypeRef(name) && tokens[k] == TokenSpec::TypeRef(name);
            if k > 0 {
                assert(rest[k - 1] == TokenSpec::TypeRef(name));
            }
        }
    }
}

/// The state of a listing of `root` that began with `seen`: every name
/// processed since is declared and was reached from `root`, every declaration
/// on the agenda is that of such a name, every visit on the agenda is to a name
/// that is processed or was reached, and every reference of a name processed
/// since leads to a processed name or to one whose visit waits.
pub open spec fn tidy(
    d: Map<Seq<char>, Seq<TokenSpec>>,
    root: Seq<char>,
    seen: Set<Seq<char>>,
    agenda: Seq<Pending>,
    processed: Set<Seq<char>>,
) -> bool {
    &&& seen.subset_of(processed)
    &&& forall|m: Seq<char>|
        processed.contains(m) && !seen.contains(m) ==> #[trigger] reaches(d, d, root, seen, m)
            && d.contains_key(m)
    &&& forall|i: int|
        0 <= i < agenda.len() ==> (#[trigger] agenda[i] matches Pending::Emit(m)
            ==> processed.contains(m) && !seen.contains(m))
    &&& forall|i: int|
        0 <= i < agenda.len() ==> (#[trigger] agenda[i] matches Pending::Visit(t)
            ==> processed.contains(t) || reaches(d, d, root, seen, t))
    &&& forall|m: Seq<char>, t: Seq<char>|
        processed.contains(m) && !seen.contains(m) && #[trigger] step(d, d, m, t)
            ==> processed.contains(t) || waits(agenda, t)
}

/// What working off a tidy agenda comes to: where it succeeds, every name
/// processed since the beginning is declared and was reached from `root`, all
/// references of these names lead to processed names, and the names put out are
/// those whose declarations waited and those newly processed; where it fails,
/// it fails at a name that was reached from `root` and is not declared.
pub open spec fn tidy_outcome(
    d: Map<Seq<char>, Seq<TokenSpec>>,
    root: Seq<char>,
    seen: Set<Seq<char>>,
    agenda: Seq<Pending>,
    processed: Set<Seq<char>>,
) -> bool {
    match expand(d, agenda, processed) {
        Some(found) => {
            &&& processed.subset_of(found.processed)
            &&& forall|i: int|
                0 <= i < agenda.len() ==> (#[trigger] agenda[i] matches Pending::Visit(t)
                    ==> found.processed.contains(t))
            &&& forall|m: Seq<char>|
                found.processed.contains(m) && !seen.contains(m) ==> #[trigger] reaches(
                    d,
                    d,
                    root,
                    seen,
                    m,
                ) && d.contains_key(m)
            &&& forall|m: Seq<char>, t: Seq<char>|
                found.processed.contains(m) && !seen.contains(m) && #[trigger] step(d, d, m, t)
                    ==> found.processed.contains(t)
            &&& forall|n: Seq<char>|
                #[trigger] found.order.contains(n) <==> (exists|i: int|
                    0 <= i < agenda.len() && #[trigger] agenda[i] == Pending::Emit(n)) || (
                found.processed.contains(n) && !processed.contains(n))
        },
        None => {
            &&& !d.contains_key(halts_at(d, agenda, processed))
            &&& reaches(d, d, root, seen, halts_at(d, agenda, processed))
        },
    }
}

/// Working off a tidy agenda comes to a tidy outcome.
pub proof fn lemma_expand_reached(
    d: Map<Seq<char>, Seq<TokenSpec>>,
    root: Seq<char>,
    seen: Set<Seq<char>>,
    agenda: Seq<Pending>,
    processed: Set<Seq<char>>,
)
    requires
        d.dom().finite(),
        tidy(d, root, seen, agenda, processed),
    ensures
        tidy_outcome(d, root, seen, agenda, processed),
    decreases d.dom().difference(processed).len(), agenda.len(),
{
    if agenda.len() > 0 {
        let below = agenda.drop_last();
        let top = agenda.len() - 1;
        assert forall|i: int| 0 <= i < below.len() implies below[i] == agenda[i] by {}
        match agenda.last() {
            Pending::Emit(name) => {
                lemma_expand_reached(d, root, seen, below, processed);
                match expand(d, below, processed) {
                    Some(rest) => {
                        let found = expand(d, agenda, processed)->0;
                        assert forall|n: Seq<char>| #[trigger]
                            found.order.contains(n) <==> (exists|i: int|
                                0 <= i < agenda.len() && #[trigger] agenda[i] == Pending::Emit(n))
                                || (found.processed.contains(n) && !processed.contains(n)) by {
                            if found.order.contains(n) {
                                let k = found.order.index_of(n);
                                if k > 0 {
                                    assert(rest.order.contains(n));
                                }
                            }
                            if exists|i: int|
                                0 <= i < agenda.len() && #[trigger] agenda[i] == Pending::Emit(n) {
                                let i = choose|i: int|
                                    0 <= i < agenda.len() && #[trigger] agenda[i] == Pending::Emit(
                                        n,
                                    );
                                if i < top {
                                    assert(rest.order.contains(n));
                                    let k = rest.order.index_of(n);
                                    assert(found.order[k + 1] == n);
                                } else {
                                    assert(found.order[0] == n);
                                }
                            }
                            if found.processed.contains(n) && !processed.contains(n) {
                                assert(rest.order.contains(n));
                                let k = rest.order.index_of(n);
                                assert(found.order[k + 1] == n);
                            }
                        }
                    },
                    None => {},
                }
            },
            Pending::Visit(name) => {
                if processed.contains(name) {
                    lemma_expand_reached(d, root, seen, below, processed);
                } else if d.contains_key(name) {
                    let refs = pending_refs(d[name]);
                    let next = below.push(Pending::Emit(name)) + refs;
                    let marked = processed.insert(name);
                    lemma_pending_refs_visit(d[name]);
                    lemma_fewer_left(d.dom(), processed, name);
                    assert forall|i: int| 0 <= i < next.len() implies (if i < below.len() {
                        #[trigger] next[i] == agenda[i]
                    } else if i == below.len() {
                        next[i] == Pending::Emit(name)
                    } else {
                        next[i] == refs[i - below.len() - 1] && next[i] is Visit
                    }) by {}
                    assert forall|i: int|
                        0 <= i < next.len() implies (#[trigger] next[i] matches Pending::Visit(t)
                        ==> marked.contains(t) || reaches(d, d, root, seen, t)) by {
                        if i > below.len() {
                            let t = next[i]->Visit_0;
                            lemma_pending_refs(d[name], t);
                            if !marked.contains(t) {
                                lemma_reaches_extend(d, d, root, seen, name, t);
                            }
                        }
                    }
                    assert forall|m: Seq<char>, t: Seq<char>|
                        marked.contains(m) && !seen.contains(m) && #[trigger] step(
                            d,
                            d,
                            m,
                            t,
                        ) implies marked.contains(t) || waits(next, t) by {
                        if m == name {
                            lemma_pending_refs(d[name], t);
                            let k = choose|k: int|
                                0 <= k < refs.len() && #[trigger] refs[k] == Pending::Visit(t);
                            assert(next[below.len() + 1 + k] == Pending::Visit(t));
                        } else if !processed.contains(t) {
                            let i = choose|i: int|
                                0 <= i < agenda.len() && #[trigger] agenda[i] == Pending::Visit(t);
                            if i < top {
                                assert(next[i] == Pending::Visit(t));
                            }
                        }
                    }
                    lemma_expand_reached(d, root, seen, next, marked);
                    match expand(d, next, marked) {
                        Some(found) => {
                            assert(next[below.len() as int] == Pending::Emit(name));
                            assert forall|i: int|
                                0 <= i < agenda.len() implies (#[trigger] agenda[i] matches Pending::Visit(
                                    t,
                                ) ==> found.processed.contains(t)) by {
                                if i < top {
                                    assert(next[i] == agenda[i]);
                                }
                            }
                            assert forall|n: Seq<char>| #[trigger]
                                found.order.contains(n) <==> (exists|i: int|
                                    0 <= i < agenda.len() && #[trigger] agenda[i] == Pending::Emit(
                                        n,
                                    )) || (found.processed.contains(n) && !processed.contains(
                                    n,
                                )) by {
                                if exists|i: int|
                                    0 <= i < agenda.len() && #[trigger] agenda[i] == Pending::Emit(
                                        n,
                                    ) {
                                    let i = choose|i: int|
                                        0 <= i < agenda.len() && #[trigger] agenda[i]
                                            == Pending::Emit(n);
                                    assert(next[i] == Pending::Emit(n));
                                }
                            }
                        },
                        None => {},
                    }
                }
            },
        }
    }
}

/// A listing succeeds exactly where the file declares every type that is
/// reached from `name` through references. It then processes exactly these
/// types, and puts out the declaration of each of them and of no other. Where
/// it fails, it fails at a type that is reached and not declared.
pub proof fn lemma_listing_reached(
    d: Map<Seq<char>, Seq<TokenSpec>>,
    name: Seq<char>,
    seen: Set<Seq<char>>,
)
    requires
        d.dom().finite(),
    ensures
        listing(d, name, seen) is Some <==> resolved(d, d, name, seen),
        listing(d, name, seen) matches Some(found) ==> {
            &&& found.processed == seen.union(reached(d, d, name, seen))
            &&& found.order.to_set() == reached(d, d, name, seen)
        },
        listing(d, name, seen) is None ==> {
            &&& reaches(d, d, name, seen, halts_at(d, seq![Pending::Visit(name)], seen))
            &&& !d.contains_key(halts_at(d, seq![Pending::Visit(name)], seen))
        },
{
    let agenda = seq![Pending::Visit(name)];
    if !seen.contains(name) {
        lemma_reaches_self(d, d, name, seen);
    }
    lemma_expand_reached(d, name, seen, agenda, seen);
    match listing(d, name, seen) {
        Some(found) => {
            assert forall|to: Seq<char>| #[trigger] reaches(d, d, name, seen, to) implies found.processed.contains(
                to,
            ) && !seen.contains(to) && d.contains_key(to) by {
                lemma_closed_holds_reached(d, d, name, seen, found.processed);
            }
        },
        None => {},
    }
}

} // verus!
