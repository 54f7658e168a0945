//! Change records: for every type name the pairs of differing token sequences
//! that a comparison met, each pair once.

use vstd::prelude::*;
use crate::corpus::SymCorpus;
use crate::name_map::NameMap;
use crate::token::Token;
use crate::token::TokenSpec;

verus! {

/// Mathematical model of the changes recorded for one type name.
pub struct ChangeSpec {
    /// The name of the type.
    pub name: Seq<char>,
    /// The pairs of token sequences recorded for it, the first of each pair
    /// from the one side, the second from the other.
    pub variants: Seq<(Seq<TokenSpec>, Seq<TokenSpec>)>,
}

/// Whether changes are recorded for `name`.
pub open spec fn has_group(groups: Seq<ChangeSpec>, name: Seq<char>) -> bool {
    exists|i: int| 0 <= i < groups.len() && (#[trigger] groups[i]).name == name
}

/// The place of the changes recorded for `name`, meaningful where there are
/// some.
pub open spec fn group_of(groups: Seq<ChangeSpec>, name: Seq<char>) -> int {
    choose|i: int| 0 <= i < groups.len() && (#[trigger] groups[i]).name == name
}

/// The change records as a set of triples: name, tokens of the one side, tokens
/// of the other.
pub open spec fn triples_of(groups: Seq<ChangeSpec>) -> Set<
    (Seq<char>, Seq<TokenSpec>, Seq<TokenSpec>),
> {
    Set::new(
        |change: (Seq<char>, Seq<TokenSpec>, Seq<TokenSpec>)|
            exists|i: int|
                0 <= i < groups.len() && (#[trigger] groups[i]).name == change.0
                    && groups[i].variants.contains((change.1, change.2)),
    )
}

/// No name has two groups, no group is empty, and no group holds a pair twice.
pub open spec fn valid_changes(groups: Seq<ChangeSpec>) -> bool {
    &&& forall|i: int, j: int|
        0 <= i < groups.len() && 0 <= j < groups.len() && i != j ==> (#[trigger] groups[i]).name
            != (#[trigger] groups[j]).name
    &&& forall|i: int|
        0 <= i < groups.len() ==> (#[trigger] groups[i]).variants.len() > 0
            && groups[i].variants.no_duplicates()
}

/// The change records after one more change is reported: unchanged where the
/// triple is recorded, else with the pair as the last of its name, and the name
/// as the last group if it had none.
pub open spec fn recorded(
    groups: Seq<ChangeSpec>,
    name: Seq<char>,
    tokens: Seq<TokenSpec>,
    other_tokens: Seq<TokenSpec>,
) -> Seq<ChangeSpec> {
    if has_group(groups, name) {
        let at = group_of(groups, name);
        if groups[at].variants.contains((tokens, other_tokens)) {
            groups
        } else {
            groups.update(
                at,
                ChangeSpec { name, variants: groups[at].variants.push((tokens, other_tokens)) },
            )
        }
    } else {
        groups.push(ChangeSpec { name, variants: seq![(tokens, other_tokens)] })
    }
}

/// Recording a change keeps the records valid and adds its triple to their set,
/// and nothing else.
pub proof fn lemma_recorded(
    groups: Seq<ChangeSpec>,
    name: Seq<char>,
    tokens: Seq<TokenSpec>,
    other_tokens: Seq<TokenSpec>,
)
    requires
        valid_changes(groups),
    ensures
        valid_changes(recorded(groups, name, tokens, other_tokens)),
        triples_of(recorded(groups, name, tokens, other_tokens)) == triples_of(groups).insert(
            (name, tokens, other_tokens),
        ),
{
    let after = recorded(groups, name, tokens, other_tokens);
    let pair = (tokens, other_tokens);
    let new = (name, tokens, other_tokens);
    if has_group(groups, name) {
        let at = group_of(groups, name);
        if !groups[at].variants.contains(pair) {
            let grown = groups[at].variants.push(pair);
            assert(grown[grown.len() - 1] == pair);
            assert forall|i: int, j: int|
                0 <= i < grown.len() && 0 <= j < grown.len() && i != j implies grown[i]
                != grown[j] by {}
            assert forall|change: (Seq<char>, Seq<TokenSpec>, Seq<TokenSpec>)|
                triples_of(after).contains(change) <==> triples_of(groups).insert(new).contains(
                    change,
                ) by {
                if triples_of(groups).contains(change) {
                    let i = choose|i: int|
                        0 <= i < groups.len() && (#[trigger] groups[i]).name == change.0
                            && groups[i].variants.contains((change.1, change.2));
                    if i == at {
                        let k = groups[i].variants.index_of((change.1, change.2));
                        assert(grown[k] == (change.1, change.2));
                    }
                }
            }
        }
    } else {
        let last = groups.len() as int;
        assert(after[last].variants[0] == pair);
        assert forall|i: int, j: int|
            0 <= i < after.len() && 0 <= j < after.len() && i != j implies (#[trigger] after[i]).name
            != (#[trigger] after[j]).name by {}
        assert forall|change: (Seq<char>, Seq<TokenSpec>, Seq<TokenSpec>)|
            triples_of(after).contains(change) <==> triples_of(groups).insert(new).contains(
                change,
            ) by {
            if triples_of(groups).contains(change) {
                let i = choose|i: int|
                    0 <= i < groups.len() && (#[trigger] groups[i]).name == change.0
                        && groups[i].variants.contains((change.1, change.2));
                assert(after[i] == groups[i]);
            }
        }
    }
}

/// In valid records a triple stands at one place only.
pub proof fn lemma_recorded_once(
    groups: Seq<ChangeSpec>,
    change: (Seq<char>, Seq<TokenSpec>, Seq<TokenSpec>),
    i: int,
    k: int,
    j: int,
    l: int,
)
    requires
        valid_changes(groups),
        0 <= i < groups.len(),
        0 <= k < groups[i].variants.len(),
        groups[i].name == change.0,
        groups[i].variants[k] == (change.1, change.2),
        0 <= j < groups.len(),
        0 <= l < groups[j].variants.len(),
        groups[j].name == change.0,
        groups[j].variants[l] == (change.1, change.2),
    ensures
        i == j,
        k == l,
{
}

/// The change records of one comparison.
pub struct TypeChanges<'a> {
    groups: NameMap<Vec<(&'a Vec<Token>, &'a Vec<Token>)>>,
}

impl<'a> View for TypeChanges<'a> {
    type V = Seq<ChangeSpec>;

    closed spec fn view(&self) -> Seq<ChangeSpec> {
        Seq::new(
            self.groups.names().len(),
            |i: int|
                ChangeSpec {
                    name: self.groups.names()[i],
                    variants: self.groups.values()[i].deep_view(),
                },
        )
    }
}

impl<'a> TypeChanges<'a> {
    /// The map behind the records is well-formed.
    pub closed spec fn inv(&self) -> bool {
        self.groups.wf()
    }

    /// Well-formedness, which every constructor establishes and every method
    /// keeps.
    pub open spec fn wf(&self) -> bool {
        &&& self.inv()
        &&& valid_changes(self@)
    }

    /// Makes an empty set of change records.
    pub fn new() -> (changes: TypeChanges<'a>)
        ensures
            changes.wf(),
            changes@ == Seq::<ChangeSpec>::empty(),
    {
        let changes = TypeChanges { groups: NameMap::new() };
        changes
    }

    /// The number of type names with a change.
    pub fn len(&self) -> (count: usize)
        ensures
            count == self@.len(),
    {
        self.groups.len()
    }

    /// The name of the type at position `i`.
    pub fn name(&self, i: usize) -> (name: &str)
        requires
            i < self@.len(),
        ensures
            name@ == self@[i as int].name,
    {
        self.groups.name(i)
    }

    /// The pairs of token sequences recorded for the type at position `i`.
    pub fn variants(&self, i: usize) -> (variants: &Vec<(&'a Vec<Token>, &'a Vec<Token>)>)
        requires
            self.wf(),
            i < self@.len(),
        ensures
            variants.deep_view() == self@[i as int].variants,
    {
        self.groups.value(i)
    }
}

impl SymCorpus {
    /// Records that the type `name` has the tokens `tokens` on the one side and
    /// `other_tokens` on the other, unless that is recorded already.
    pub fn record_type_change<'a>(
        name: &'a str,
        tokens: &'a Vec<Token>,
        other_tokens: &'a Vec<Token>,
        changes: &mut TypeChanges<'a>,
    )
        requires
            old(changes).wf(),
        ensures
            final(changes).wf(),
            final(changes)@ == recorded(
                old(changes)@,
                name@,
                tokens.deep_view(),
                other_tokens.deep_view(),
            ),
            triples_of(final(changes)@) == triples_of(old(changes)@).insert(
                (name@, tokens.deep_view(), other_tokens.deep_view()),
            ),
    {
        let ghost before = changes@;
        let ghost pair = (tokens.deep_view(), other_tokens.deep_view());
        proof {
            lemma_recorded(before, name@, pair.0, pair.1);
        }
        match changes.groups.find(name) {
            Some(at) => {
                proof {
                    assert(before[at as int].name == name@);
                }
                let variants = changes.groups.value(at);
                let ghost known = variants.deep_view();
                let mut i: usize = 0;
                let mut found = false;
                while i < variants.len() && !found
                    invariant
                        i <= variants.len(),
                        known == variants.deep_view(),
                        pair == (tokens.deep_view(), other_tokens.deep_view()),
                        found ==> i < variants.len() && known[i as int] == pair,
                        forall|j: int| 0 <= j < i ==> known[j] != pair,
                    decreases variants.len() - i + if found { 0int } else { 1int },
                {
                    let (tokens2, other_tokens2) = variants[i];
                    if Self::are_tokens_eq(tokens, tokens2) && Self::are_tokens_eq(
                        other_tokens,
                        other_tokens2,
                    ) {
                        found = true;
                    } else {
                        i += 1;
                    }
                }
                if found {
                    return ;
                }
                let slot = changes.groups.value_mut(at);
                slot.push((tokens, other_tokens));
                proof {
                    let grown = changes.groups.values()[at as int];
                    assert(grown.deep_view() =~= known.push(pair));
                    assert(changes@ =~= recorded(before, name@, pair.0, pair.1));
                }
            },
            None => {
                let mut variants: Vec<(&'a Vec<Token>, &'a Vec<Token>)> = Vec::new();
                variants.push((tokens, other_tokens));
                assert(variants.deep_view() =~= seq![pair]);
                changes.groups.push(name.to_owned(), variants);
                proof {
                    assert(changes@ =~= recorded(before, name@, pair.0, pair.1));
                }
            },
        }
    }
}

} // verus!
