//! The graph that the comparator walks: two files, side by side, each a map
//! from declared names to token sequences. An edge leads from a name to every
//! type that both declarations of the name refer to at the same position.

use vstd::prelude::*;
use crate::token::TokenSpec;

verus! {

/// Whether both token sequences refer to `target` at one and the same position.
pub open spec fn linked(a: Seq<TokenSpec>, b: Seq<TokenSpec>, target: Seq<char>) -> bool {
    exists|i: int|
        0 <= i < a.len() && i < b.len() && #[trigger] a[i] == TokenSpec::TypeRef(target) && b[i]
            == TokenSpec::TypeRef(target)
}

/// Whether the walk goes on from `from` to `to`: both sides declare `from`, and
/// both declarations refer to `to` at the same position.
pub open spec fn step(
    da: Map<Seq<char>, Seq<TokenSpec>>,
    db: Map<Seq<char>, Seq<TokenSpec>>,
    from: Seq<char>,
    to: Seq<char>,
) -> bool {
    da.contains_key(from) && db.contains_key(from) && linked(da[from], db[from], to)
}

/// Whether `walk` is a chain of steps that stays clear of the names in
/// `avoiding`.
pub open spec fn is_walk(
    da: Map<Seq<char>, Seq<TokenSpec>>,
    db: Map<Seq<char>, Seq<TokenSpec>>,
    walk: Seq<Seq<char>>,
    avoiding: Set<Seq<char>>,
) -> bool {
    &&& walk.len() > 0
    &&& forall|i: int| 0 <= i < walk.len() ==> !avoiding.contains(#[trigger] walk[i])
    &&& forall|i: int| 0 <= i < walk.len() - 1 ==> step(da, db, #[trigger] walk[i], walk[i + 1])
}

/// Whether a walk that stays clear of `avoiding` leads from `from` to `to`.
pub open spec fn reaches(
    da: Map<Seq<char>, Seq<TokenSpec>>,
    db: Map<Seq<char>, Seq<TokenSpec>>,
    from: Seq<char>,
    avoiding: Set<Seq<char>>,
    to: Seq<char>,
) -> bool {
    exists|walk: Seq<Seq<char>>| #[trigger]
        is_walk(da, db, walk, avoiding) && walk[0] == from && walk.last() == to
}

/// The names that a walk from `from` reaches while it stays clear of
/// `avoiding`.
pub open spec fn reached(
    da: Map<Seq<char>, Seq<TokenSpec>>,
    db: Map<Seq<char>, Seq<TokenSpec>>,
    from: Seq<char>,
    avoiding: Set<Seq<char>>,
) -> Set<Seq<char>> {
    Set::new(|to: Seq<char>| reaches(da, db, from, avoiding, to))
}

/// Whether both sides declare every name that a walk from `from` reaches.
pub open spec fn resolved(
    da: Map<Seq<char>, Seq<TokenSpec>>,
    db: Map<Seq<char>, Seq<TokenSpec>>,
    from: Seq<char>,
    avoiding: Set<Seq<char>>,
) -> bool {
    forall|to: Seq<char>| #[trigger]
        reaches(da, db, from, avoiding, to) ==> da.contains_key(to) && db.contains_key(to)
}

/// The changes among `names`: every one of them whose two declarations differ,
/// with both.
pub open spec fn changes_among(
    da: Map<Seq<char>, Seq<TokenSpec>>,
    db: Map<Seq<char>, Seq<TokenSpec>>,
    names: Set<Seq<char>>,
) -> Set<(Seq<char>, Seq<TokenSpec>, Seq<TokenSpec>)> {
    Set::new(
        |change: (Seq<char>, Seq<TokenSpec>, Seq<TokenSpec>)|
            names.contains(change.0) && change.1 == da[change.0] && change.2 == db[change.0]
                && change.1 != change.2,
    )
}

/// The changes that a walk from `from` meets: those among the names that it
/// reaches.
pub open spec fn changes_from(
    da: Map<Seq<char>, Seq<TokenSpec>>,
    db: Map<Seq<char>, Seq<TokenSpec>>,
    from: Seq<char>,
    avoiding: Set<Seq<char>>,
) -> Set<(Seq<char>, Seq<TokenSpec>, Seq<TokenSpec>)> {
    changes_among(da, db, reached(da, db, from, avoiding))
}

/// Whether two tokens differ: in kind, or in text.
pub open spec fn tokens_differ(a: TokenSpec, b: TokenSpec) -> bool {
    (a is TypeRef) != (b is TypeRef) || a.text() != b.text()
}

/// Whether two token sequences differ: in length, or in the token at a position
/// that both have.
pub open spec fn bodies_differ(a: Seq<TokenSpec>, b: Seq<TokenSpec>) -> bool {
    a.len() != b.len() || exists|i: int|
        0 <= i < a.len() && i < b.len() && tokens_differ(#[trigger] a[i], b[i])
}

/// Two token sequences are unequal exactly when they differ in length, in the
/// text of an atom, in the name that a reference refers to, or in the kind of a
/// token.
pub proof fn lemma_bodies_differ(a: Seq<TokenSpec>, b: Seq<TokenSpec>)
    ensures
        bodies_differ(a, b) <==> a != b,
{
    if !bodies_differ(a, b) {
        assert(a =~= b);
    }
}

/// Every type that a walk comes to and whose two declarations differ is among
/// the changes that the walk meets, with both declarations.
pub proof fn lemma_change_complete(
    da: Map<Seq<char>, Seq<TokenSpec>>,
    db: Map<Seq<char>, Seq<TokenSpec>>,
    from: Seq<char>,
    avoiding: Set<Seq<char>>,
    name: Seq<char>,
)
    requires
        reaches(da, db, from, avoiding, name),
        bodies_differ(da[name], db[name]),
    ensures
        changes_from(da, db, from, avoiding).contains((name, da[name], db[name])),
{
}

/// A name that is not avoided reaches itself.
pub proof fn lemma_reaches_self(
    da: Map<Seq<char>, Seq<TokenSpec>>,
    db: Map<Seq<char>, Seq<TokenSpec>>,
    from: Seq<char>,
    avoiding: Set<Seq<char>>,
)
    requires
        !avoiding.contains(from),
    ensures
        reaches(da, db, from, avoiding, from),
{
    let walk = seq![from];
    assert(is_walk(da, db, walk, avoiding));
}

/// A walk goes on by one step to any name that is not avoided.
pub proof fn lemma_reaches_extend(
    da: Map<Seq<char>, Seq<TokenSpec>>,
    db: Map<Seq<char>, Seq<TokenSpec>>,
    from: Seq<char>,
    avoiding: Set<Seq<char>>,
    via: Seq<char>,
    to: Seq<char>,
)
    requires
        reaches(da, db, from, avoiding, via),
        step(da, db, via, to),
        !avoiding.contains(to),
    ensures
        reaches(da, db, from, avoiding, to),
{
    let walk = choose|walk: Seq<Seq<char>>| #[trigger]
        is_walk(da, db, walk, avoiding) && walk[0] == from && walk.last() == via;
    let longer = walk.push(to);
    assert(is_walk(da, db, longer, avoiding));
}

/// A step followed by a walk is a walk, also where the walk avoided more.
pub proof fn lemma_reaches_prepend(
    da: Map<Seq<char>, Seq<TokenSpec>>,
    db: Map<Seq<char>, Seq<TokenSpec>>,
    from: Seq<char>,
    avoiding: Set<Seq<char>>,
    via: Seq<char>,
    more: Set<Seq<char>>,
    to: Seq<char>,
)
    requires
        !avoiding.contains(from),
        step(da, db, from, via),
        avoiding.subset_of(more),
        reaches(da, db, via, more, to),
    ensures
        reaches(da, db, from, avoiding, to),
{
    let walk = choose|walk: Seq<Seq<char>>| #[trigger]
        is_walk(da, db, walk, more) && walk[0] == via && walk.last() == to;
    let longer = seq![from] + walk;
    assert(is_walk(da, db, longer, avoiding));
}

/// A set that holds the start of a walk, and every step from each of its new
/// members, holds the whole walk.
pub proof fn lemma_closed_holds_walk(
    da: Map<Seq<char>, Seq<TokenSpec>>,
    db: Map<Seq<char>, Seq<TokenSpec>>,
    avoiding: Set<Seq<char>>,
    closed: Set<Seq<char>>,
    walk: Seq<Seq<char>>,
    upto: int,
)
    requires
        is_walk(da, db, walk, avoiding),
        closed.contains(walk[0]),
        forall|from: Seq<char>, to: Seq<char>|
            closed.contains(from) && !avoiding.contains(from) && #[trigger] step(da, db, from, to)
                ==> closed.contains(to),
        0 <= upto < walk.len(),
    ensures
        closed.contains(walk[upto]),
    decreases upto,
{
    if upto > 0 {
        lemma_closed_holds_walk(da, db, avoiding, closed, walk, upto - 1);
    }
}

/// A set that holds `from`, and every step from each of its new members, holds
/// every name that `from` reaches.
pub proof fn lemma_closed_holds_reached(
    da: Map<Seq<char>, Seq<TokenSpec>>,
    db: Map<Seq<char>, Seq<TokenSpec>>,
    from: Seq<char>,
    avoiding: Set<Seq<char>>,
    closed: Set<Seq<char>>,
)
    requires
        closed.contains(from),
        forall|via: Seq<char>, to: Seq<char>|
            closed.contains(via) && !avoiding.contains(via) && #[trigger] step(da, db, via, to)
                ==> closed.contains(to),
    ensures
        forall|to: Seq<char>| #[trigger]
            reaches(da, db, from, avoiding, to) ==> closed.contains(to),
{
    assert forall|to: Seq<char>| #[trigger] reaches(da, db, from, avoiding, to) implies closed.contains(
        to,
    ) by {
        let walk = choose|walk: Seq<Seq<char>>| #[trigger]
            is_walk(da, db, walk, avoiding) && walk[0] == from && walk.last() == to;
        lemma_closed_holds_walk(da, db, avoiding, closed, walk, walk.len() - 1);
    }
}

/// Nothing is reached from a name that is avoided.
pub proof fn lemma_avoided_reaches_nothing(
    da: Map<Seq<char>, Seq<TokenSpec>>,
    db: Map<Seq<char>, Seq<TokenSpec>>,
    from: Seq<char>,
    avoiding: Set<Seq<char>>,
)
    requires
        avoiding.contains(from),
    ensures
        reached(da, db, from, avoiding) == Set::<Seq<char>>::empty(),
        changes_from(da, db, from, avoiding) == Set::<
            (Seq<char>, Seq<TokenSpec>, Seq<TokenSpec>),
        >::empty(),
        resolved(da, db, from, avoiding),
{
}

/// Where both sides are one and the same, no walk meets a change.
pub proof fn lemma_no_change_against_itself(
    da: Map<Seq<char>, Seq<TokenSpec>>,
    from: Seq<char>,
    avoiding: Set<Seq<char>>,
)
    ensures
        changes_from(da, da, from, avoiding) == Set::<
            (Seq<char>, Seq<TokenSpec>, Seq<TokenSpec>),
        >::empty(),
{
}

/// The state of a walk from `name` that began with `seen` and has `visited`
/// by now: every new name was reached from `name` and is declared on both
/// sides, and every step from a new name other than `name` leads to a visited
/// name.
pub open spec fn walking(
    da: Map<Seq<char>, Seq<TokenSpec>>,
    db: Map<Seq<char>, Seq<TokenSpec>>,
    name: Seq<char>,
    seen: Set<Seq<char>>,
    visited: Set<Seq<char>>,
) -> bool {
    &&& seen.insert(name).subset_of(visited)
    &&& !seen.contains(name)
    &&& forall|m: Seq<char>|
        visited.contains(m) && !seen.contains(m) ==> #[trigger] reaches(da, db, name, seen, m)
            && da.contains_key(m) && db.contains_key(m)
    &&& forall|m: Seq<char>, t: Seq<char>|
        visited.contains(m) && !seen.contains(m) && m != name && #[trigger] step(da, db, m, t)
            ==> visited.contains(t)
}

/// The changes met so far by a walk from `name`: those among the new names
/// other than `name` itself, which is judged last.
pub open spec fn met(
    da: Map<Seq<char>, Seq<TokenSpec>>,
    db: Map<Seq<char>, Seq<TokenSpec>>,
    name: Seq<char>,
    seen: Set<Seq<char>>,
    visited: Set<Seq<char>>,
) -> Set<(Seq<char>, Seq<TokenSpec>, Seq<TokenSpec>)> {
    changes_among(da, db, visited.difference(seen).remove(name))
}

/// A walk goes on through a reference: after the walk from the referenced name
/// `via`, the first walk has visited what that one reached and met what that
/// one met.
pub proof fn lemma_walk_goes_on(
    da: Map<Seq<char>, Seq<TokenSpec>>,
    db: Map<Seq<char>, Seq<TokenSpec>>,
    name: Seq<char>,
    seen: Set<Seq<char>>,
    visited: Set<Seq<char>>,
    via: Seq<char>,
)
    requires
        walking(da, db, name, seen, visited),
        step(da, db, name, via),
        resolved(da, db, via, visited),
    ensures
        walking(da, db, name, seen, visited.union(reached(da, db, via, visited))),
        visited.union(reached(da, db, via, visited)).contains(via),
        met(da, db, name, seen, visited.union(reached(da, db, via, visited))) == met(
            da,
            db,
            name,
            seen,
            visited,
        ).union(changes_from(da, db, via, visited)),
{
    let more = reached(da, db, via, visited);
    let after = visited.union(more);
    assert forall|m: Seq<char>| more.contains(m) implies !visited.contains(m) && reaches(
        da,
        db,
        name,
        seen,
        m,
    ) && da.contains_key(m) && db.contains_key(m) by {
        lemma_reaches_prepend(da, db, name, seen, via, visited, m);
    }
    assert forall|m: Seq<char>, t: Seq<char>|
        after.contains(m) && !seen.contains(m) && m != name && #[trigger] step(
            da,
            db,
            m,
            t,
        ) implies after.contains(t) by {
        if !visited.contains(m) && !visited.contains(t) {
            lemma_reaches_extend(da, db, via, visited, m, t);
        }
    }
    if !visited.contains(via) {
        lemma_reaches_self(da, db, via, visited);
    }
}

/// A name that the walk from a reference reaches, the first walk reaches too.
pub proof fn lemma_walk_reaches(
    da: Map<Seq<char>, Seq<TokenSpec>>,
    db: Map<Seq<char>, Seq<TokenSpec>>,
    name: Seq<char>,
    seen: Set<Seq<char>>,
    visited: Set<Seq<char>>,
    via: Seq<char>,
    to: Seq<char>,
)
    requires
        walking(da, db, name, seen, visited),
        step(da, db, name, via),
        reaches(da, db, via, visited, to),
    ensures
        reaches(da, db, name, seen, to),
{
    lemma_reaches_prepend(da, db, name, seen, via, visited, to);
}

/// A walk ends when every step from its first name leads to a visited name:
/// then it has visited exactly what it reaches, all of that is declared on
/// both sides, and with the change of the first name, if it is one, it has met
/// exactly the changes that the walk meets.
pub proof fn lemma_walk_ends(
    da: Map<Seq<char>, Seq<TokenSpec>>,
    db: Map<Seq<char>, Seq<TokenSpec>>,
    name: Seq<char>,
    seen: Set<Seq<char>>,
    visited: Set<Seq<char>>,
)
    requires
        walking(da, db, name, seen, visited),
        forall|t: Seq<char>| #[trigger] step(da, db, name, t) ==> visited.contains(t),
    ensures
        visited == seen.union(reached(da, db, name, seen)),
        resolved(da, db, name, seen),
        da[name] != db[name] ==> changes_from(da, db, name, seen) == met(
            da,
            db,
            name,
            seen,
            visited,
        ).insert((name, da[name], db[name])),
        da[name] == db[name] ==> changes_from(da, db, name, seen) == met(
            da,
            db,
            name,
            seen,
            visited,
        ),
{
    lemma_closed_holds_reached(da, db, name, seen, visited);
}

} // verus!
