//! Rows that no longer belong to the index.
use crate::paths;
use crate::paths::starts_with;
use crate::scanner::namespace;
use crate::scanner::namespace::{among, path_in_namespace, subtree_in_namespace};
use crate::text;
use crate::text_order;
use crate::text_order::sort_distinct;
use vstd::prelude::*;

verus! {

/// A search for stored scopes outside the namespace of the chosen roots. It starts from the
/// hidden volumes that the index knows and from its gaps.
#[derive(Debug)]
pub struct Pruning {
    pub configured: Vec<String>,
    pub candidates: Vec<String>,
    pub visited: Vec<String>,
    pub scopes: Vec<String>,
}

/// What a search has to say of a stored scope.
pub enum Standing {
    /// All of it is removed.
    Outside,
    /// Part of it is: its children have to be looked at.
    Mixed,
    /// Nothing of it is removed.
    Inside,
}

pub open spec fn standing(path: Seq<char>, roots: Seq<Seq<char>>) -> Standing {
    if !namespace::in_namespace(path, roots) {
        Standing::Outside
    } else if !namespace::tree_in_namespace(path, roots) {
        Standing::Mixed
    } else {
        Standing::Inside
    }
}

impl Pruning {
    pub open spec fn roots(&self) -> Seq<Seq<char>> {
        text::texts(self.configured@)
    }

    /// Every visited scope outside the namespace is to be removed, and nothing else.
    pub open spec fn wf(&self) -> bool {
        forall|path: Seq<char>| #[trigger]
            text::texts(self.scopes@).contains(path) == (text::texts(self.visited@).contains(path)
                && standing(path, self.roots()) is Outside)
    }

    pub fn start(configured: Vec<String>, candidates: Vec<String>) -> (search: Self)
        ensures
            search.wf(),
            search.configured == configured,
            search.candidates == candidates,
            search.visited@.len() == 0,
    {
        let search = Pruning { configured, candidates, visited: Vec::new(), scopes: Vec::new() };
        assert(text::texts(search.scopes@) =~= Seq::<Seq<char>>::empty());
        assert(text::texts(search.visited@) =~= Seq::<Seq<char>>::empty());
        search
    }

    /// Visit candidates until one is found whose stored children have to be looked at. None is
    /// left where the answer is `None`.
    pub fn next_mixed(&mut self) -> (scope: Option<String>)
        requires
            old(self).wf(),
        ensures
            final(self).wf(),
            final(self).configured == old(self).configured,
            forall|path: Seq<char>| #[trigger]
                text::texts(old(self).visited@).contains(path) ==> text::texts(
                    final(self).visited@,
                ).contains(path),
            forall|path: Seq<char>| #[trigger]
                text::texts(old(self).candidates@).contains(path) ==> text::texts(
                    final(self).visited@,
                ).contains(path) || text::texts(final(self).candidates@).contains(path),
            forall|path: Seq<char>| #[trigger]
                text::texts(final(self).visited@).contains(path) ==> text::texts(
                    old(self).visited@,
                ).contains(path) || text::texts(old(self).candidates@).contains(path),
            forall|path: Seq<char>| #[trigger]
                text::texts(final(self).candidates@).contains(path) ==> text::texts(
                    old(self).candidates@,
                ).contains(path),
            final(self).candidates@.len() <= old(self).candidates@.len(),
            final(self).candidates@ == old(self).candidates@.take(
                final(self).candidates@.len() as int,
            ),
            forall|path: Seq<char>| #[trigger]
                text::texts(final(self).visited@).contains(path) && standing(
                    path,
                    old(self).roots(),
                ) is Mixed ==> text::texts(old(self).visited@).contains(path) || (
                scope matches Some(found) && found@ == path),
            match scope {
                Some(found) => standing(found@, old(self).roots()) is Mixed && !text::texts(
                    old(self).visited@,
                ).contains(found@) && text::texts(final(self).visited@).contains(found@)
                    && final(self).candidates@.len() < old(self).candidates@.len() && found
                    == old(self).candidates@[final(self).candidates@.len() as int],
                None => final(self).candidates@.len() == 0,
            },
    {
        let ghost first = *self;
        while self.candidates.len() > 0
            invariant
                first == *old(self),
                self.wf(),
                self.configured == first.configured,
                self.candidates@.len() <= first.candidates@.len(),
                self.candidates@ == first.candidates@.take(self.candidates@.len() as int),
                forall|path: Seq<char>| #[trigger]
                    text::texts(first.visited@).contains(path) ==> text::texts(
                        self.visited@,
                    ).contains(path),
                forall|path: Seq<char>| #[trigger]
                    text::texts(first.candidates@).contains(path) ==> text::texts(
                        self.visited@,
                    ).contains(path) || text::texts(self.candidates@).contains(path),
                forall|path: Seq<char>| #[trigger]
                    text::texts(self.visited@).contains(path) ==> text::texts(
                        first.visited@,
                    ).contains(path) || text::texts(first.candidates@).contains(path),
                forall|path: Seq<char>| #[trigger]
                    text::texts(self.candidates@).contains(path) ==> text::texts(
                        first.candidates@,
                    ).contains(path),
                forall|path: Seq<char>| #[trigger]
                    text::texts(self.visited@).contains(path) && standing(path, first.roots())
                        is Mixed ==> text::texts(first.visited@).contains(path),
            decreases self.candidates@.len(),
        {
            let ghost waiting = text::texts(self.candidates@);
            let ghost count = self.candidates@.len();
            let ghost seen = text::texts(self.visited@);
            let ghost out = text::texts(self.scopes@);
            if let Some(path) = self.candidates.pop() {
                let ghost left = text::texts(self.candidates@);
                proof {
                    assert(self.candidates@ =~= first.candidates@.take(count - 1));
                    assert(path == first.candidates@[count - 1]);
                    assert(waiting =~= left.push(path@));
                    assert(waiting.contains(path@)) by {
                        assert(waiting[waiting.len() - 1] == path@);
                    }
                    assert forall|t: Seq<char>| #[trigger] waiting.contains(t) == (left.contains(t)
                        || t == path@) by {
                        lemma_pushed(left, path@, t);
                    }
                    assert forall|t: Seq<char>| #[trigger] left.contains(t) implies text::texts(
                        first.candidates@,
                    ).contains(t) by {
                        assert(waiting.contains(t));
                    }
                }
                if !among(self.visited.as_slice(), path.as_str()) {
                    self.visited.push(path.clone());
                    proof {
                        assert(text::texts(self.visited@) =~= seen.push(path@));
                        assert forall|t: Seq<char>| #[trigger]
                            text::texts(self.visited@).contains(t) == (seen.contains(t) || t
                                == path@) by {
                            lemma_pushed(seen, path@, t);
                        }
                    }
                    if !path_in_namespace(path.as_str(), self.configured.as_slice()) {
                        let ghost name = path@;
                        self.scopes.push(path);
                        proof {
                            assert(text::texts(self.scopes@) =~= out.push(name));
                            assert forall|t: Seq<char>| #[trigger]
                                text::texts(self.scopes@).contains(t) == (out.contains(t) || t
                                    == name) by {
                                lemma_pushed(out, name, t);
                            }
                        }
                    } else if !subtree_in_namespace(path.as_str(), self.configured.as_slice()) {
                        return Some(path);
                    }
                }
            }
        }
        None
    }

    /// The stored children of a scope that was asked for.
    pub fn children_found(&mut self, children: Vec<String>)
        requires
            old(self).wf(),
        ensures
            final(self).wf(),
            final(self).configured == old(self).configured,
            final(self).visited == old(self).visited,
            text::texts(final(self).candidates@) == text::texts(old(self).candidates@)
                + text::texts(children@),
    {
        text::append_texts(&mut self.candidates, children);
    }
}

proof fn lemma_pushed(list: Seq<Seq<char>>, item: Seq<char>, wanted: Seq<char>)
    ensures
        list.push(item).contains(wanted) == (list.contains(wanted) || wanted == item),
{
    let more = list.push(item);
    if more.contains(wanted) {
        let k = choose|k: int| 0 <= k < more.len() && more[k] == wanted;
        if k < list.len() {
            assert(list[k] == wanted);
        }
    }
    if list.contains(wanted) {
        let k = choose|k: int| 0 <= k < list.len() && list[k] == wanted;
        assert(more[k] == wanted);
    }
    assert(more[list.len() as int] == item);
}

/// Scopes without those inside an earlier one.
pub open spec fn outermost(scopes: Seq<Seq<char>>) -> Seq<Seq<char>>
    decreases scopes.len(),
{
    if scopes.len() == 0 {
        scopes
    } else {
        let kept = outermost(scopes.drop_last());
        if exists|i: int|
            0 <= i < kept.len() && paths::path_starts_with(scopes.last(), #[trigger] kept[i]) {
            kept
        } else {
            kept.push(scopes.last())
        }
    }
}

/// The scopes to remove, each once and none inside another. These are stored keys: they are
/// taken as they are spelled.
pub fn collapse(scopes: Vec<String>) -> (kept: Vec<String>)
    ensures
        text::texts(kept@) == outermost(text_order::sorted_distinct(text::texts(scopes@))),
{
    let sorted = sort_distinct(scopes);
    let ghost all = text::texts(sorted@);
    let mut kept: Vec<String> = Vec::new();
    let mut next: usize = 0;
    assert(text::texts(kept@) =~= outermost(all.take(0)));
    while next < sorted.len()
        invariant
            next <= sorted@.len(),
            all == text::texts(sorted@),
            text::texts(kept@) == outermost(all.take(next as int)),
        decreases sorted@.len() - next,
    {
        let ghost part = all.take(next + 1);
        let ghost before = text::texts(kept@);
        let scope = sorted[next].as_str();
        assert(part.drop_last() =~= all.take(next as int));
        assert(part.last() == scope@);
        let mut inside = false;
        let mut at: usize = 0;
        while at < kept.len()
            invariant
                at <= kept@.len(),
                before == text::texts(kept@),
                inside == exists|i: int|
                    0 <= i < at && paths::path_starts_with(scope@, #[trigger] before[i]),
            decreases kept@.len() - at,
        {
            assert(before[at as int] == kept@[at as int]@);
            if starts_with(scope, kept[at].as_str()) {
                inside = true;
            }
            at = at + 1;
        }
        if !inside {
            kept.push(scope.to_owned());
            assert(text::texts(kept@) =~= before.push(scope@));
        }
        next = next + 1;
    }
    assert(all.take(next as int) =~= all);
    kept
}

proof fn lemma_outermost(scopes: Seq<Seq<char>>, path: Seq<char>)
    ensures
        outermost(scopes).contains(path) ==> scopes.contains(path),
        scopes.contains(path) ==> exists|i: int|
            0 <= i < outermost(scopes).len() && paths::path_starts_with(
                path,
                #[trigger] outermost(scopes)[i],
            ),
    decreases scopes.len(),
{
    if scopes.len() > 0 {
        let head = scopes.drop_last();
        let kept = outermost(head);
        let all = outermost(scopes);
        lemma_outermost(head, path);
        assert(scopes =~= head.push(scopes.last()));
        lemma_pushed(head, scopes.last(), path);
        lemma_pushed(kept, scopes.last(), path);
        if head.contains(path) {
            let i = choose|i: int|
                0 <= i < kept.len() && paths::path_starts_with(path, #[trigger] kept[i]);
            assert(all[i] == kept[i]);
        }
        if path == scopes.last() {
            if exists|i: int|
                0 <= i < kept.len() && paths::path_starts_with(scopes.last(), #[trigger] kept[i]) {
                let i = choose|i: int|
                    0 <= i < kept.len() && paths::path_starts_with(
                        scopes.last(),
                        #[trigger] kept[i],
                    );
                assert(all[i] == kept[i]);
            } else {
                assert(all.last() == path);
                assert(paths::components(path).take(paths::components(path).len() as int)
                    =~= paths::components(path));
                assert(paths::path_starts_with(path, all[all.len() - 1]));
            }
        }
    }
}

/// Collapsing loses no scope and invents none: everything that was to be removed lies in a
/// scope that is, and all of them are outside the namespace if what was found is.
pub proof fn law_collapsed_scopes_remove_the_same(
    scopes: Seq<Seq<char>>,
    roots: Seq<Seq<char>>,
    path: Seq<char>,
)
    requires
        forall|scope: Seq<char>| #[trigger]
            scopes.contains(scope) ==> standing(scope, roots) is Outside,
    ensures
        ({
            let kept = outermost(text_order::sorted_distinct(scopes));
            &&& kept.contains(path) ==> standing(path, roots) is Outside
            &&& scopes.contains(path) ==> exists|i: int|
                0 <= i < kept.len() && paths::path_starts_with(path, #[trigger] kept[i])
        }),
{
    let sorted = text_order::sorted_distinct(scopes);
    text_order::lemma_sorted_exists(scopes);
    lemma_outermost(sorted, path);
    assert(sorted.to_set().contains(path) == sorted.contains(path));
    assert(scopes.to_set().contains(path) == scopes.contains(path));
}

} // verus!
