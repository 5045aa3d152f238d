//! The scopes that chosen roots and stored paths come to.
use crate::cancellation;
use crate::paths;
use crate::paths::{component_texts, is_absolute, join, lexical_path, parent, relative_path, starts_with};
use crate::scanner::namespace;
use crate::scanner::namespace::{
    compact_by, system_path, visible_path, Firmlink, HostNames, DATA_ROOT, SYSTEM_VOLUMES,
};
use crate::text;
use crate::text_order;
use crate::text::same_text;
use vstd::prelude::*;

verus! {

/// A predicate on paths answers as a function of the path does.
pub open spec fn agrees<F: Fn(&str) -> bool>(ask: F, answer: spec_fn(Seq<char>) -> bool) -> bool {
    forall|path: &str, said: bool| #[trigger]
        call_ensures(ask, (path,), said) ==> said == answer(path@)
}

/// Real paths are found as by a function of the path.
pub open spec fn resolves<F: Fn(&str) -> Option<String>>(
    ask: F,
    answer: spec_fn(Seq<char>) -> Option<Seq<char>>,
) -> bool {
    forall|path: &str, said: Option<String>| #[trigger]
        call_ensures(ask, (path,), said) ==> match said {
            Some(real_path) => answer(path@) == Some(real_path@),
            None => answer(path@) is None,
        }
}

/// A path from the root, whatever directory is current.
pub open spec fn absolute(names: HostNames, root: Seq<char>) -> Seq<char> {
    paths::lexical(
        if paths::has_root(root) {
            root
        } else {
            paths::path_join(names.current_directory@, root)
        },
    )
}

fn absolute_path(names: &HostNames, root: &str) -> (path: String)
    ensures
        path@ == absolute(*names, root@),
{
    if is_absolute(root) {
        return lexical_path(root);
    }
    let seen = join(names.current_directory.as_str(), root);
    lexical_path(seen.as_str())
}

/// A stored scope as it is spelled in the index.
pub open spec fn scope_of(names: HostNames, root: Seq<char>) -> Seq<char> {
    namespace::dealiased(
        names.aliases@,
        namespace::visible(names.firmlinks@, absolute(names, root)),
    )
}

/// A selection of the data volume's mount point or of something above a firmlink on it.
pub open spec fn reaches(root: Seq<char>, physical: Seq<char>) -> bool {
    root == SYSTEM_VOLUMES@ || (paths::path_starts_with(root, DATA_ROOT@)
        && paths::path_starts_with(physical, root))
}

/// The names at the root of what selections of the data volume reach.
pub open spec fn reached(links: Seq<Firmlink>, roots: Seq<Seq<char>>) -> Seq<Seq<char>>
    decreases links.len(),
{
    if links.len() == 0 {
        Seq::empty()
    } else {
        let before = reached(links.drop_last(), roots);
        let link = links.last();
        if link.verified && exists|i: int|
            0 <= i < roots.len() && #[trigger] reaches(roots[i], link.physical@) {
            before.push(link.logical@)
        } else {
            before
        }
    }
}

fn any_reaches(roots: &Vec<String>, physical: &str) -> (found: bool)
    ensures
        found == exists|i: int|
            0 <= i < roots@.len() && #[trigger] reaches(text::texts(roots@)[i], physical@),
{
    let ghost list = text::texts(roots@);
    let mut next: usize = 0;
    while next < roots.len()
        invariant
            next <= roots@.len(),
            list == text::texts(roots@),
            forall|i: int| 0 <= i < next ==> !#[trigger] reaches(list[i], physical@),
        decreases roots@.len() - next,
    {
        let root = roots[next].as_str();
        assert(list[next as int] == root@);
        if same_text(root, SYSTEM_VOLUMES) || (starts_with(root, DATA_ROOT) && starts_with(
            physical,
            root,
        )) {
            assert(reaches(list[next as int], physical@));
            return true;
        }
        next = next + 1;
    }
    false
}

/// The scopes that spelled roots come to.
pub open spec fn settled(names: HostNames, roots: Seq<Seq<char>>) -> Seq<Seq<char>> {
    namespace::compact(roots + reached(names.firmlinks@, roots))
}

fn settle<C: Fn() -> bool>(names: &HostNames, roots: Vec<String>, cancelled: &C) -> (scopes: Option<
    Vec<String>,
>)
    requires
        call_requires(*cancelled, ()),
    ensures
        match scopes {
            Some(kept) => text::texts(kept@) == settled(*names, text::texts(roots@))
                && !cancellation::always(*cancelled),
            None => call_ensures(*cancelled, (), true),
        },
{
    let ghost list = text::texts(roots@);
    let links = &names.firmlinks;
    let mut mapped: Vec<String> = Vec::new();
    let mut next: usize = 0;
    assert(text::texts(mapped@) =~= reached(links@.take(0), list));
    while next < links.len()
        invariant
            next <= links@.len(),
            list == text::texts(roots@),
            text::texts(mapped@) == reached(links@.take(next as int), list),
        decreases links@.len() - next,
    {
        let ghost part = links@.take(next + 1);
        let ghost before = text::texts(mapped@);
        assert(part.drop_last() =~= links@.take(next as int));
        assert(part.last() == links@[next as int]);
        let link = &links[next];
        if link.verified && any_reaches(&roots, link.physical.as_str()) {
            let name = link.logical.clone();
            mapped.push(name);
            assert(text::texts(mapped@) =~= before.push(link.logical@));
        }
        next = next + 1;
    }
    assert(links@.take(next as int) =~= links@);
    let mut all = roots;
    let ghost extra = mapped@;
    all.append(&mut mapped);
    assert(text::texts(all@) =~= list + text::texts(extra));
    compact_by(all, cancelled)
}

/// The scopes that stored roots come to.
pub open spec fn scopes_of(names: HostNames, roots: Seq<Seq<char>>) -> Seq<Seq<char>> {
    settled(names, roots.map_values(|root: Seq<char>| scope_of(names, root)))
}

pub fn normalize_scopes_until<C: Fn() -> bool>(
    roots: &[String],
    names: &HostNames,
    cancelled: C,
) -> (scopes: Option<Vec<String>>)
    requires
        call_requires(cancelled, ()),
    ensures
        match scopes {
            Some(kept) => text::texts(kept@) == scopes_of(*names, text::texts(roots@))
                && !cancellation::always(cancelled),
            None => call_ensures(cancelled, (), true),
        },
{
    if cancelled() {
        return None;
    }
    let ghost each = text::texts(roots@).map_values(|root: Seq<char>| scope_of(*names, root));
    let mut out: Vec<String> = Vec::new();
    let mut next: usize = 0;
    assert(text::texts(out@) =~= each.take(0));
    while next < roots.len()
        invariant
            next <= roots@.len(),
            call_requires(cancelled, ()),
            each == text::texts(roots@).map_values(|root: Seq<char>| scope_of(*names, root)),
            text::texts(out@) == each.take(next as int),
        decreases roots@.len() - next,
    {
        if cancelled() {
            return None;
        }
        let ghost before = text::texts(out@);
        let absolute = absolute_path(names, roots[next].as_str());
        let seen = visible_path(absolute.as_str(), &names.firmlinks);
        let spelled = system_path(seen.as_str(), &names.aliases);
        out.push(spelled);
        next = next + 1;
        assert(text::texts(out@) =~= before.push(spelled@));
        assert(text::texts(out@) =~= each.take(next as int));
    }
    assert(each.take(next as int) =~= each);
    settle(names, out, &cancelled)
}

fn never() -> (stopped: bool)
    ensures
        !stopped,
{
    false
}

/// Reuse persisted selections and event or recovery paths without following a mutable user
/// alias. Only verified aliases of the operating system are spelled physically.
pub fn normalize_scopes(roots: &[String], names: &HostNames) -> (scopes: Vec<String>)
    ensures
        text::texts(scopes@) == scopes_of(*names, text::texts(roots@)),
{
    match normalize_scopes_until(roots, names, never) {
        Some(scopes) => scopes,
        None => Vec::new(),
    }
}

/// The last component of a path, where it is a name.
pub open spec fn file_name(path: Seq<char>) -> Option<Seq<char>> {
    let parts = paths::components(path);
    if parts.len() > 0 && parts.last() != seq!['/'] && parts.last() != seq!['.'] && parts.last()
        != seq!['.', '.'] {
        Some(parts.last())
    } else {
        None
    }
}

/// The last component of a path, where it is a name.
pub fn name_of(path: &str) -> (name: Option<String>)
    ensures
        match file_name(path@) {
            Some(last) => name matches Some(found) && found@ == last,
            None => name is None,
        },
{
    let parts = component_texts(path);
    let count = parts.len();
    proof {
        reveal_strlit("..");
        reveal_strlit(".");
        reveal_strlit("/");
        assert(".."@ =~= seq!['.', '.']);
        assert("."@ =~= seq!['.']);
        assert("/"@ =~= seq!['/']);
        assert(paths::components(path@).len() == parts@.len());
    }
    if count == 0 {
        return None;
    }
    let last = parts[count - 1].as_str();
    if same_text(last, "/") || same_text(last, ".") || same_text(last, "..") {
        return None;
    }
    Some(last.to_owned())
}

/// The chosen path behind the closest ancestor that has a real path.
pub open spec fn behind_real(
    links: Seq<Firmlink>,
    path: Seq<char>,
    ancestor: Seq<char>,
    find: spec_fn(Seq<char>) -> Option<Seq<char>>,
) -> Seq<char>
    decreases ancestor.len(),
{
    match find(ancestor) {
        Some(found) => namespace::visible(
            links,
            paths::path_join(
                found,
                paths::relative(
                    paths::components(path).skip(paths::components(ancestor).len() as int),
                ),
            ),
        ),
        None => match paths::parent_path(ancestor) {
            Some(up) => if up.len() < ancestor.len() {
                behind_real(links, path, up, find)
            } else {
                path
            },
            None => path,
        },
    }
}

/// A newly chosen root as it is kept: links on the way to it are resolved, the root itself is
/// not, and nothing on a mount that is not indexed is looked at.
pub open spec fn chosen(
    names: HostNames,
    root: Seq<char>,
    allowed: spec_fn(Seq<char>) -> bool,
    link: spec_fn(Seq<char>) -> bool,
    find: spec_fn(Seq<char>) -> Option<Seq<char>>,
) -> Seq<char> {
    let path = absolute(names, root);
    let seen = namespace::visible(names.firmlinks@, path);
    if !allowed(path) {
        path
    } else if link(seen) {
        match (paths::parent_path(seen), file_name(seen)) {
            (Some(up), Some(name)) => match find(up) {
                Some(found) => namespace::visible(
                    names.firmlinks@,
                    paths::path_join(found, name),
                ),
                None => seen,
            },
            _ => seen,
        }
    } else {
        behind_real(names.firmlinks@, seen, seen, find)
    }
}

fn resolve_ancestors<R: Fn(&str) -> Option<String>>(
    links: &Vec<Firmlink>,
    path: &str,
    find: &R,
) -> (out: String)
    requires
        forall|p: &str| #[trigger] call_requires(*find, (p,)),
    ensures
        forall|f: spec_fn(Seq<char>) -> Option<Seq<char>>| #[trigger]
            resolves(*find, f) ==> out@ == behind_real(links@, path@, path@, f),
{
    let parts = component_texts(path);
    let mut ancestor = path.to_owned();
    proof {
        assert(paths::components(path@).take(paths::components(path@).len() as int)
            =~= paths::components(path@));
    }
    loop
        invariant
            forall|p: &str| #[trigger] call_requires(*find, (p,)),
            text::texts(parts@) == paths::components(path@),
            paths::components(ancestor@).len() <= parts@.len(),
            forall|f: spec_fn(Seq<char>) -> Option<Seq<char>>| #[trigger]
                resolves(*find, f) ==> behind_real(links@, path@, ancestor@, f) == behind_real(
                    links@,
                    path@,
                    path@,
                    f,
                ),
        decreases ancestor@.len(),
    {
        let found = find(ancestor.as_str());
        if let Some(found) = found {
            let depth = component_texts(ancestor.as_str());
            assert(paths::components(ancestor@).len() == depth@.len());
            let rest = relative_path(&parts, depth.len());
            let whole = join(found.as_str(), rest.as_str());
            return visible_path(whole.as_str(), links);
        }
        proof {
            paths::law_parent_components(ancestor@);
            paths::lemma_parent_shorter(ancestor@);
        }
        match parent(ancestor.as_str()) {
            Some(up) => {
                ancestor = up;
            },
            None => {
                return path.to_owned();
            },
        }
    }
}

fn choose_path<A: Fn(&str) -> bool, S: Fn(&str) -> bool, R: Fn(&str) -> Option<String>>(
    names: &HostNames,
    root: &str,
    allows: &A,
    is_link: &S,
    find: &R,
) -> (out: String)
    requires
        forall|p: &str| #[trigger] call_requires(*allows, (p,)),
        forall|p: &str| #[trigger] call_requires(*is_link, (p,)),
        forall|p: &str| #[trigger] call_requires(*find, (p,)),
    ensures
        forall|
            a: spec_fn(Seq<char>) -> bool,
            s: spec_fn(Seq<char>) -> bool,
            f: spec_fn(Seq<char>) -> Option<Seq<char>>,
        | #[trigger]
            agrees(*allows, a) && #[trigger] agrees(*is_link, s) && #[trigger] resolves(*find, f)
                ==> out@ == chosen(*names, root@, a, s, f),
{
    let path = absolute_path(names, root);
    if !allows(path.as_str()) {
        return path;
    }
    let seen = visible_path(path.as_str(), &names.firmlinks);
    if is_link(seen.as_str()) {
        let up = parent(seen.as_str());
        let name = name_of(seen.as_str());
        if let (Some(up), Some(name)) = (up, name) {
            let found = find(up.as_str());
            if let Some(found) = found {
                let whole = join(found.as_str(), name.as_str());
                return visible_path(whole.as_str(), &names.firmlinks);
            }
        }
        return seen;
    }
    resolve_ancestors(&names.firmlinks, seen.as_str(), find)
}

/// The scopes that newly chosen roots come to.
pub open spec fn roots_of(
    names: HostNames,
    roots: Seq<Seq<char>>,
    allowed: spec_fn(Seq<char>) -> bool,
    link: spec_fn(Seq<char>) -> bool,
    find: spec_fn(Seq<char>) -> Option<Seq<char>>,
) -> Seq<Seq<char>> {
    settled(names, roots.map_values(|root: Seq<char>| chosen(names, root, allowed, link, find)))
}

/// Resolve a fresh selection once. `allows` says whether a path is on a mount that is indexed,
/// `is_link` whether it is a symbolic link, and `find` gives its real path if it has one.
pub fn normalize_roots_until<
    A: Fn(&str) -> bool,
    S: Fn(&str) -> bool,
    R: Fn(&str) -> Option<String>,
    C: Fn() -> bool,
>(roots: &[String], names: &HostNames, allows: A, is_link: S, find: R, cancelled: C) -> (scopes:
    Option<Vec<String>>)
    requires
        forall|p: &str| #[trigger] call_requires(allows, (p,)),
        forall|p: &str| #[trigger] call_requires(is_link, (p,)),
        forall|p: &str| #[trigger] call_requires(find, (p,)),
        call_requires(cancelled, ()),
    ensures
        match scopes {
            Some(kept) => !cancellation::always(cancelled) && forall|
                a: spec_fn(Seq<char>) -> bool,
                s: spec_fn(Seq<char>) -> bool,
                f: spec_fn(Seq<char>) -> Option<Seq<char>>,
            | #[trigger]
                agrees(allows, a) && #[trigger] agrees(is_link, s) && #[trigger] resolves(find, f)
                    ==> text::texts(kept@) == roots_of(*names, text::texts(roots@), a, s, f),
            None => call_ensures(cancelled, (), true),
        },
{
    choose_roots(roots, names, &allows, &is_link, &find, &cancelled)
}

pub(crate) fn choose_roots<
    A: Fn(&str) -> bool,
    S: Fn(&str) -> bool,
    R: Fn(&str) -> Option<String>,
    C: Fn() -> bool,
>(roots: &[String], names: &HostNames, allows: &A, is_link: &S, find: &R, cancelled: &C) -> (scopes:
    Option<Vec<String>>)
    requires
        forall|p: &str| #[trigger] call_requires(*allows, (p,)),
        forall|p: &str| #[trigger] call_requires(*is_link, (p,)),
        forall|p: &str| #[trigger] call_requires(*find, (p,)),
        call_requires(*cancelled, ()),
    ensures
        match scopes {
            Some(kept) => !cancellation::always(*cancelled) && forall|
                a: spec_fn(Seq<char>) -> bool,
                s: spec_fn(Seq<char>) -> bool,
                f: spec_fn(Seq<char>) -> Option<Seq<char>>,
            | #[trigger]
                agrees(*allows, a) && #[trigger] agrees(*is_link, s) && #[trigger] resolves(*find, f)
                    ==> text::texts(kept@) == roots_of(*names, text::texts(roots@), a, s, f),
            None => call_ensures(*cancelled, (), true),
        },
{
    if cancelled() {
        return None;
    }
    let ghost list = text::texts(roots@);
    let mut out: Vec<String> = Vec::new();
    let mut next: usize = 0;
    while next < roots.len()
        invariant
            next <= roots@.len(),
            list == text::texts(roots@),
            out@.len() == next,
            forall|p: &str| #[trigger] call_requires(*allows, (p,)),
            forall|p: &str| #[trigger] call_requires(*is_link, (p,)),
            forall|p: &str| #[trigger] call_requires(*find, (p,)),
            call_requires(*cancelled, ()),
            forall|
                a: spec_fn(Seq<char>) -> bool,
                s: spec_fn(Seq<char>) -> bool,
                f: spec_fn(Seq<char>) -> Option<Seq<char>>,
                i: int,
            |
                #![trigger agrees(*allows, a), agrees(*is_link, s), resolves(*find, f), out@[i]]
                agrees(*allows, a) && agrees(*is_link, s) && resolves(*find, f) && 0 <= i < next
                    ==> out@[i]@ == chosen(*names, list[i], a, s, f),
        decreases roots@.len() - next,
    {
        if cancelled() {
            return None;
        }
        let path = choose_path(names, roots[next].as_str(), allows, is_link, find);
        assert(list[next as int] == roots@[next as int]@);
        out.push(path);
        next = next + 1;
    }
    proof {
        let made = text::texts(out@);
        assert forall|
            a: spec_fn(Seq<char>) -> bool,
            s: spec_fn(Seq<char>) -> bool,
            f: spec_fn(Seq<char>) -> Option<Seq<char>>,
        | #[trigger]
            agrees(*allows, a) && #[trigger] agrees(*is_link, s) && #[trigger] resolves(*find,
                f,
            ) implies made == list.map_values(
            |root: Seq<char>| chosen(*names, root, a, s, f),
        ) by {
            let each = list.map_values(|root: Seq<char>| chosen(*names, root, a, s, f));
            assert forall|i: int| 0 <= i < made.len() implies made[i] == each[i] by {
                assert(made[i] == out@[i]@);
            }
            assert(made =~= each);
        }
    }
    settle(names, out, cancelled)
}

/// Resolve a fresh selection once.
pub fn normalize_roots<
    A: Fn(&str) -> bool,
    S: Fn(&str) -> bool,
    R: Fn(&str) -> Option<String>,
>(roots: &[String], names: &HostNames, allows: A, is_link: S, find: R) -> (scopes: Vec<String>)
    requires
        forall|p: &str| #[trigger] call_requires(allows, (p,)),
        forall|p: &str| #[trigger] call_requires(is_link, (p,)),
        forall|p: &str| #[trigger] call_requires(find, (p,)),
    ensures
        forall|
            a: spec_fn(Seq<char>) -> bool,
            s: spec_fn(Seq<char>) -> bool,
            f: spec_fn(Seq<char>) -> Option<Seq<char>>,
        | #[trigger]
            agrees(allows, a) && #[trigger] agrees(is_link, s) && #[trigger] resolves(find, f)
                ==> text::texts(scopes@) == roots_of(*names, text::texts(roots@), a, s, f),
{
    match normalize_roots_until(roots, names, allows, is_link, find, never) {
        Some(scopes) => scopes,
        None => Vec::new(),
    }
}

/// Host names that lead to paths from the root.
pub open spec fn lead_to_root(names: HostNames) -> bool {
    &&& forall|i: int|
        0 <= i < names.firmlinks@.len() ==> paths::has_root(#[trigger] names.firmlinks@[i].logical@)
    &&& forall|i: int|
        0 <= i < names.aliases@.len() ==> paths::has_root(#[trigger] names.aliases@[i].physical@)
}

proof fn lemma_moved_from_root(path: Seq<char>, from: Seq<char>, to: Seq<char>)
    requires
        paths::has_root(to),
    ensures
        paths::has_root(namespace::moved(path, from, to)),
{
}

proof fn lemma_linked_from_root(links: Seq<Firmlink>, path: Seq<char>)
    requires
        paths::has_root(path),
        forall|i: int| 0 <= i < links.len() ==> paths::has_root(#[trigger] links[i].logical@),
    ensures
        paths::has_root(namespace::linked(links, path)),
    decreases links.len(),
{
    if links.len() > 0 {
        let rest = links.drop_first();
        assert forall|i: int| 0 <= i < rest.len() implies paths::has_root(
            #[trigger] rest[i].logical@,
        ) by {
            assert(rest[i] == links[i + 1]);
        }
        assert(paths::has_root(links[0].logical@));
        lemma_moved_from_root(path, links[0].physical@, links[0].logical@);
        lemma_linked_from_root(rest, path);
    }
}

proof fn lemma_dealiased_from_root(aliases: Seq<namespace::Alias>, path: Seq<char>)
    requires
        paths::has_root(path),
        forall|i: int| 0 <= i < aliases.len() ==> paths::has_root(#[trigger] aliases[i].physical@),
    ensures
        paths::has_root(namespace::dealiased(aliases, path)),
    decreases aliases.len(),
{
    if aliases.len() > 0 {
        let rest = aliases.drop_first();
        assert forall|i: int| 0 <= i < rest.len() implies paths::has_root(
            #[trigger] rest[i].physical@,
        ) by {
            assert(rest[i] == aliases[i + 1]);
        }
        assert(paths::has_root(aliases[0].physical@));
        lemma_moved_from_root(path, aliases[0].logical@, aliases[0].physical@);
        lemma_dealiased_from_root(rest, path);
    }
}

proof fn lemma_reached_from_root(links: Seq<Firmlink>, roots: Seq<Seq<char>>, path: Seq<char>)
    requires
        forall|i: int| 0 <= i < links.len() ==> paths::has_root(#[trigger] links[i].logical@),
        reached(links, roots).contains(path),
    ensures
        paths::has_root(path),
    decreases links.len(),
{
    if links.len() > 0 {
        let init = links.drop_last();
        assert forall|i: int| 0 <= i < init.len() implies paths::has_root(
            #[trigger] init[i].logical@,
        ) by {
            assert(init[i] == links[i]);
        }
        assert(paths::has_root(links[links.len() - 1].logical@));
        let (before, all) = (reached(init, roots), reached(links, roots));
        let i = choose|i: int| 0 <= i < all.len() && all[i] == path;
        if i < before.len() {
            assert(before[i] == path);
            lemma_reached_from_root(init, roots, path);
        }
    }
}

/// The scopes that stored roots come to begin at the root.
pub proof fn law_scopes_begin_at_the_root(
    names: HostNames,
    roots: Seq<Seq<char>>,
    scope: Seq<char>,
)
    requires
        lead_to_root(names),
        scopes_of(names, roots).contains(scope),
    ensures
        paths::has_root(scope),
        paths::components(scope).len() > 0,
{
    let spelled = roots.map_values(|root: Seq<char>| scope_of(names, root));
    let links = names.firmlinks@;
    let all = spelled + reached(links, spelled);
    namespace::law_compaction_keeps_coverage(all);
    assert(all.contains(scope));
    let i = choose|i: int| 0 <= i < all.len() && all[i] == scope;
    if i < spelled.len() {
        let path = absolute(names, roots[i]);
        assert(scope == scope_of(names, roots[i]));
        paths::law_lexical_paths_are_normal(path);
        lemma_linked_from_root(links, paths::lexical(path));
        lemma_dealiased_from_root(names.aliases@, namespace::visible(links, path));
    } else {
        assert(reached(links, spelled)[i - spelled.len()] == scope);
        lemma_reached_from_root(links, spelled, scope);
    }
    paths::lemma_root_component(scope);
}

proof fn lemma_reached_same(links: Seq<Firmlink>, a: Seq<Seq<char>>, b: Seq<Seq<char>>)
    requires
        forall|t: Seq<char>| #[trigger] a.contains(t) == b.contains(t),
    ensures
        reached(links, a) == reached(links, b),
    decreases links.len(),
{
    if links.len() > 0 {
        lemma_reached_same(links.drop_last(), a, b);
        let physical = links.last().physical@;
        if exists|i: int| 0 <= i < a.len() && #[trigger] reaches(a[i], physical) {
            let i = choose|i: int| 0 <= i < a.len() && #[trigger] reaches(a[i], physical);
            assert(a.contains(a[i]));
            let j = choose|j: int| 0 <= j < b.len() && b[j] == a[i];
            assert(reaches(b[j], physical));
        }
        if exists|i: int| 0 <= i < b.len() && #[trigger] reaches(b[i], physical) {
            let i = choose|i: int| 0 <= i < b.len() && #[trigger] reaches(b[i], physical);
            assert(b.contains(b[i]));
            assert(a.contains(b[i]));
            let j = choose|j: int| 0 <= j < a.len() && a[j] == b[i];
            assert(reaches(a[j], physical));
        }
    }
}

/// The scopes that stored roots come to depend only on which roots there are, not on their order
/// or on how often each is given.
pub proof fn law_scopes_depend_on_which_roots_there_are(
    names: HostNames,
    a: Seq<Seq<char>>,
    b: Seq<Seq<char>>,
)
    requires
        forall|t: Seq<char>| #[trigger] a.contains(t) == b.contains(t),
    ensures
        scopes_of(names, a) == scopes_of(names, b),
{
    let (x, y) = (
        a.map_values(|root: Seq<char>| scope_of(names, root)),
        b.map_values(|root: Seq<char>| scope_of(names, root)),
    );
    assert forall|t: Seq<char>| #[trigger] x.contains(t) == y.contains(t) by {
        if x.contains(t) {
            let i = choose|i: int| 0 <= i < x.len() && x[i] == t;
            assert(a.contains(a[i]));
            let j = choose|j: int| 0 <= j < b.len() && b[j] == a[i];
            assert(y[j] == t);
        }
        if y.contains(t) {
            let i = choose|i: int| 0 <= i < y.len() && y[i] == t;
            assert(b.contains(b[i]));
            assert(a.contains(b[i]));
            let j = choose|j: int| 0 <= j < a.len() && a[j] == b[i];
            assert(x[j] == t);
        }
    }
    let links = names.firmlinks@;
    lemma_reached_same(links, x, y);
    let (p, q) = (x + reached(links, x), y + reached(links, y));
    assert forall|t: Seq<char>| #[trigger] p.contains(t) == q.contains(t) by {
        lemma_in_either(x, reached(links, x), t);
        lemma_in_either(y, reached(links, y), t);
        assert(x.contains(t) == y.contains(t));
    }
    text_order::lemma_same_sorted(p, q);
}

/// What one list or another has, both together have.
pub proof fn lemma_in_either(a: Seq<Seq<char>>, b: Seq<Seq<char>>, wanted: Seq<char>)
    ensures
        (a + b).contains(wanted) == (a.contains(wanted) || b.contains(wanted)),
{
    let both = a + b;
    if both.contains(wanted) {
        let i = choose|i: int| 0 <= i < both.len() && both[i] == wanted;
        if i < a.len() {
            assert(a[i] == wanted);
        } else {
            assert(b[i - a.len()] == wanted);
        }
    }
    if a.contains(wanted) {
        let i = choose|i: int| 0 <= i < a.len() && a[i] == wanted;
        assert(both[i] == wanted);
    }
    if b.contains(wanted) {
        let i = choose|i: int| 0 <= i < b.len() && b[i] == wanted;
        assert(both[a.len() + i] == wanted);
    }
}

} // verus!
