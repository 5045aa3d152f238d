//! Which paths belong to an index, and under which name.
//!
//! The boot volume group shows its data volume twice: under the volume's own mount point and,
//! through firmlinks, at the root. A file is indexed under the name at the root. The other
//! volumes of the group stay out of an index unless they were chosen themselves.
use crate::cancellation;
use crate::paths;
use crate::paths::{
    component_texts, is_absolute, join, lexical_path, relative_path, same_path, starts_with,
};
use crate::scanner::component_index::ComponentIndex;
use crate::text;
use crate::text::same_text;
use crate::text_order;
use crate::text_order::sort_distinct;
use vstd::prelude::*;

verus! {

/// Where the volumes of the boot volume group are mounted.
pub const SYSTEM_VOLUMES: &'static str = "/System/Volumes";

/// Where the data volume of the boot volume group is mounted.
pub const DATA_ROOT: &'static str = "/System/Volumes/Data";

/// A directory of the data volume that also stands at the root. It counts only where both
/// names were seen to be the same object.
#[derive(Clone, Debug)]
pub struct Firmlink {
    pub physical: String,
    pub logical: String,
    pub verified: bool,
}

/// A symbolic link that the operating system itself keeps, such as `/var`.
#[derive(Clone, Debug)]
pub struct Alias {
    pub physical: String,
    pub logical: String,
}

/// What the host says of its names. Firmlinks with longer physical names come first.
#[derive(Clone, Debug)]
pub struct HostNames {
    pub current_directory: String,
    pub firmlinks: Vec<Firmlink>,
    pub aliases: Vec<Alias>,
}

/// Whether a text is among some.
pub fn among(texts: &[String], text: &str) -> (found: bool)
    ensures
        found == text::texts(texts@).contains(text@),
{
    let mut next: usize = 0;
    while next < texts.len()
        invariant
            next <= texts@.len(),
            forall|i: int| 0 <= i < next ==> #[trigger] text::texts(texts@)[i] != text@,
        decreases texts@.len() - next,
    {
        if same_text(texts[next].as_str(), text) {
            assert(text::texts(texts@)[next as int] == text@);
            return true;
        }
        next = next + 1;
    }
    false
}

/// A selection of or in the boot volume group's mount points, above or below the path.
pub open spec fn selects_volume(path: Seq<char>, root: Seq<char>) -> bool {
    paths::path_starts_with(root, SYSTEM_VOLUMES@) && (paths::path_starts_with(path, root)
        || paths::path_starts_with(root, path))
}

/// Whether a path belongs to the index of some roots.
pub open spec fn in_namespace(path: Seq<char>, configured: Seq<Seq<char>>) -> bool {
    ||| paths::components(path) == paths::components(SYSTEM_VOLUMES@)
    ||| !paths::path_starts_with(path, SYSTEM_VOLUMES@)
    ||| paths::path_starts_with(path, DATA_ROOT@) && configured.contains("/"@)
    ||| exists|i: int|
        0 <= i < configured.len() && #[trigger] selects_volume(path, configured[i])
}

/// The boot namespace includes the live data volume, but none of the hidden ones. A root
/// chosen among them keeps its meaning; a passing scope never becomes such a choice.
pub fn path_in_namespace(path: &str, configured: &[String]) -> (inside: bool)
    ensures
        inside == in_namespace(path@, text::texts(configured@)),
{
    if same_path(path, SYSTEM_VOLUMES) || !starts_with(path, SYSTEM_VOLUMES) {
        return true;
    }
    if starts_with(path, DATA_ROOT) && among(configured, "/") {
        return true;
    }
    let ghost roots = text::texts(configured@);
    let mut next: usize = 0;
    while next < configured.len()
        invariant
            next <= configured@.len(),
            roots == text::texts(configured@),
            forall|i: int| 0 <= i < next ==> !#[trigger] selects_volume(path@, roots[i]),
        decreases configured@.len() - next,
    {
        let root = configured[next].as_str();
        assert(root@ == roots[next as int]);
        if starts_with(root, SYSTEM_VOLUMES) && (starts_with(path, root) || starts_with(root, path)) {
            assert(selects_volume(path@, roots[next as int]));
            return true;
        }
        next = next + 1;
    }
    false
}

/// A selection of or in the boot volume group's mount points that the path lies in.
pub open spec fn holds_volume(path: Seq<char>, root: Seq<char>) -> bool {
    paths::path_starts_with(root, SYSTEM_VOLUMES@) && paths::path_starts_with(path, root)
}

/// Whether everything below a path belongs to the index of some roots.
pub open spec fn tree_in_namespace(path: Seq<char>, configured: Seq<Seq<char>>) -> bool {
    ||| !paths::path_starts_with(path, SYSTEM_VOLUMES@)
    ||| paths::path_starts_with(path, DATA_ROOT@) && configured.contains("/"@)
    ||| exists|i: int|
        0 <= i < configured.len() && #[trigger] holds_volume(path, configured[i])
}

/// Whether every descendant belongs to the configured namespace. A deeper selection makes its
/// ancestors part of the namespace without authorizing their other children.
pub fn subtree_in_namespace(path: &str, configured: &[String]) -> (inside: bool)
    ensures
        inside == tree_in_namespace(path@, text::texts(configured@)),
{
    if !starts_with(path, SYSTEM_VOLUMES) {
        return true;
    }
    if starts_with(path, DATA_ROOT) && among(configured, "/") {
        return true;
    }
    let ghost roots = text::texts(configured@);
    let mut next: usize = 0;
    while next < configured.len()
        invariant
            next <= configured@.len(),
            roots == text::texts(configured@),
            forall|i: int| 0 <= i < next ==> !#[trigger] holds_volume(path@, roots[i]),
        decreases configured@.len() - next,
    {
        let root = configured[next].as_str();
        assert(root@ == roots[next as int]);
        if starts_with(root, SYSTEM_VOLUMES) && starts_with(path, root) {
            assert(holds_volume(path@, roots[next as int]));
            return true;
        }
        next = next + 1;
    }
    false
}

/// Whether the children of a path belong to the index of some roots.
pub open spec fn descends(path: Seq<char>, configured: Seq<Seq<char>>) -> bool {
    in_namespace(path, configured) && (path != SYSTEM_VOLUMES@ || configured.contains(
        SYSTEM_VOLUMES@,
    ))
}

pub fn descend_in_namespace(path: &str, configured: &[String]) -> (down: bool)
    ensures
        down == descends(path@, text::texts(configured@)),
{
    path_in_namespace(path, configured) && (!same_text(path, SYSTEM_VOLUMES) || among(
        configured,
        SYSTEM_VOLUMES,
    ))
}

/// A whole tree in the namespace is in it itself.
pub proof fn law_a_tree_in_the_namespace_is_in_it(path: Seq<char>, configured: Seq<Seq<char>>)
    requires
        tree_in_namespace(path, configured),
    ensures
        in_namespace(path, configured),
{
    if paths::path_starts_with(path, SYSTEM_VOLUMES@) && !(paths::path_starts_with(
        path,
        DATA_ROOT@,
    ) && configured.contains("/"@)) {
        let i = choose|i: int|
            0 <= i < configured.len() && #[trigger] holds_volume(path, configured[i]);
        assert(selects_volume(path, configured[i]));
    }
}

/// What begins a beginning of a path begins the path.
proof fn lemma_starts_transitive(a: Seq<char>, b: Seq<char>, c: Seq<char>)
    requires
        paths::path_starts_with(b, a),
        paths::path_starts_with(c, b),
    ensures
        paths::path_starts_with(c, a),
{
    let (x, y, z) = (paths::components(a), paths::components(b), paths::components(c));
    assert(z.subrange(0, y.len() as int) == y);
    assert(y.subrange(0, x.len() as int) == x);
    assert(z.subrange(0, x.len() as int) =~= y.subrange(0, x.len() as int));
}

/// Of two beginnings of a path one begins the other.
proof fn lemma_beginnings_compare(a: Seq<char>, b: Seq<char>, c: Seq<char>)
    requires
        paths::path_starts_with(c, a),
        paths::path_starts_with(c, b),
    ensures
        paths::path_starts_with(a, b) || strictly_below(b, a),
{
    let (x, y, z) = (paths::components(a), paths::components(b), paths::components(c));
    assert(z.subrange(0, x.len() as int) == x);
    assert(z.subrange(0, y.len() as int) == y);
    if y.len() <= x.len() {
        assert(x.subrange(0, y.len() as int) =~= y);
    } else {
        assert(y.subrange(0, x.len() as int) =~= x);
    }
}

/// The length of the longest of some names.
spec fn longest(names: Seq<Seq<char>>) -> nat
    decreases names.len(),
{
    if names.len() == 0 {
        0
    } else {
        let before = longest(names.drop_last());
        if names.last().len() > before {
            names.last().len()
        } else {
            before
        }
    }
}

proof fn lemma_longest(names: Seq<Seq<char>>, i: int)
    requires
        0 <= i < names.len(),
    ensures
        names[i].len() <= longest(names),
    decreases names.len(),
{
    if i < names.len() - 1 {
        lemma_longest(names.drop_last(), i);
    }
}

/// The length of the longest name in some paths.
spec fn longest_in(roots: Seq<Seq<char>>) -> nat
    decreases roots.len(),
{
    if roots.len() == 0 {
        0
    } else {
        let before = longest_in(roots.drop_last());
        let here = longest(paths::components(roots.last()));
        if here > before {
            here
        } else {
            before
        }
    }
}

proof fn lemma_longest_in(roots: Seq<Seq<char>>, i: int, j: int)
    requires
        0 <= i < roots.len(),
        0 <= j < paths::components(roots[i]).len(),
    ensures
        paths::components(roots[i])[j].len() <= longest_in(roots),
    decreases roots.len(),
{
    lemma_longest(paths::components(roots[i]), j);
    if i < roots.len() - 1 {
        lemma_longest_in(roots.drop_last(), i, j);
    }
}

/// Every path strictly below one belongs to the index of some roots.
pub open spec fn all_below_in_namespace(path: Seq<char>, configured: Seq<Seq<char>>) -> bool {
    forall|below: Seq<char>| #[trigger]
        strictly_below(below, path) ==> in_namespace(below, configured)
}

/// `subtree_in_namespace` says of a path whether every path below it is in the namespace,
/// except for the paths above the mount points of the boot volume group: their trees count as
/// inside, though hidden volumes are mounted in them.
pub proof fn law_a_tree_is_in_the_namespace_with_all_below(
    path: Seq<char>,
    configured: Seq<Seq<char>>,
)
    requires
        !strictly_below(SYSTEM_VOLUMES@, path),
    ensures
        tree_in_namespace(path, configured) == all_below_in_namespace(path, configured),
{
    if tree_in_namespace(path, configured) {
        assert forall|below: Seq<char>| #[trigger] strictly_below(below, path) implies in_namespace(
            below,
            configured,
        ) by {
            if !paths::path_starts_with(path, SYSTEM_VOLUMES@) {
                if paths::path_starts_with(below, SYSTEM_VOLUMES@) {
                    lemma_beginnings_compare(path, SYSTEM_VOLUMES@, below);
                }
            } else if paths::path_starts_with(path, DATA_ROOT@) && configured.contains("/"@) {
                lemma_starts_transitive(DATA_ROOT@, path, below);
            } else {
                let i = choose|i: int|
                    0 <= i < configured.len() && #[trigger] holds_volume(path, configured[i]);
                lemma_starts_transitive(configured[i], path, below);
                assert(selects_volume(below, configured[i]));
            }
        }
    } else {
        let volumes = paths::components(SYSTEM_VOLUMES@);
        let data = paths::components(DATA_ROOT@);
        let parts = paths::components(path);
        let reach = longest_in(configured) + longest(data) + 2;
        let name = Seq::new(reach, |i: int| 'x');
        assert(!name.contains('/'));
        assert(name.len() > 1);
        assert(seq!['.'].len() == 1);
        assert(paths::is_component(name));
        reveal_strlit("/System/Volumes");
        assert(paths::has_root(SYSTEM_VOLUMES@));
        paths::lemma_root_component(SYSTEM_VOLUMES@);
        paths::lemma_root_component(path);
        assert(parts.subrange(0, volumes.len() as int)[0] == volumes[0]);
        assert(paths::has_root(path));
        let below = path + seq!['/'] + name;
        paths::lemma_child_components(path, name);
        let all = paths::components(below);
        assert(all.subrange(0, parts.len() as int) =~= parts);
        assert(strictly_below(below, path));
        lemma_starts_transitive(SYSTEM_VOLUMES@, path, below);
        assert(all[parts.len() as int] == name);
        if paths::path_starts_with(below, DATA_ROOT@) {
            lemma_beginnings_compare(path, DATA_ROOT@, below);
            if !paths::path_starts_with(path, DATA_ROOT@) {
                assert(all.subrange(0, data.len() as int)[parts.len() as int] == name);
                lemma_longest(data, parts.len() as int);
            }
        }
        assert forall|i: int| 0 <= i < configured.len() implies !#[trigger] selects_volume(
            below,
            configured[i],
        ) by {
            let root = configured[i];
            let its = paths::components(root);
            assert(!holds_volume(path, root));
            if selects_volume(below, root) {
                if paths::path_starts_with(below, root) {
                    lemma_beginnings_compare(path, root, below);
                    assert(strictly_below(root, path));
                    assert(all.subrange(0, its.len() as int)[parts.len() as int] == name);
                } else {
                    assert(its.subrange(0, all.len() as int)[parts.len() as int] == name);
                }
                lemma_longest_in(configured, i, parts.len() as int);
            }
        }
        assert(!in_namespace(below, configured));
    }
}

/// Outside the mount points of the boot volume group every path belongs to every index.
pub proof fn law_ordinary_paths_are_in_every_namespace(path: Seq<char>, configured: Seq<Seq<char>>)
    requires
        !paths::path_starts_with(path, SYSTEM_VOLUMES@),
    ensures
        in_namespace(path, configured),
        tree_in_namespace(path, configured),
        path != SYSTEM_VOLUMES@ ==> descends(path, configured),
{
}

/// The path below `from` as the same path below `to`.
pub open spec fn moved(path: Seq<char>, from: Seq<char>, to: Seq<char>) -> Seq<char> {
    let rest = paths::components(path).skip(paths::components(from).len() as int);
    if rest.len() == 0 {
        to
    } else {
        paths::path_join(to, paths::relative(rest))
    }
}

fn move_path(path: &str, from: &str, to: &str) -> (out: String)
    requires
        paths::path_starts_with(path@, from@),
    ensures
        out@ == moved(path@, from@, to@),
{
    let (parts, base) = (component_texts(path), component_texts(from));
    let ghost (all, head) = (paths::components(path@), paths::components(from@));
    assert(all.len() == parts@.len() && head.len() == base@.len());
    assert(head.len() <= all.len());
    let start = base.len();
    if start == parts.len() {
        return to.to_owned();
    }
    let rest = relative_path(&parts, start);
    join(to, rest.as_str())
}

/// The name at the root of a path without `.` and `..`, by the first firmlink that leads to
/// it.
pub open spec fn linked(links: Seq<Firmlink>, path: Seq<char>) -> Seq<char>
    decreases links.len(),
{
    if links.len() == 0 {
        path
    } else if links[0].verified && paths::path_starts_with(path, links[0].physical@) {
        moved(path, links[0].physical@, links[0].logical@)
    } else {
        linked(links.drop_first(), path)
    }
}

/// The name under which a path is indexed.
pub open spec fn visible(links: Seq<Firmlink>, path: Seq<char>) -> Seq<char> {
    linked(links, paths::lexical(path))
}

/// Only verified firmlink targets share a namespace. Directories that only the data volume
/// has, and those above a firmlink, keep their physical paths.
pub fn visible_path(path: &str, links: &Vec<Firmlink>) -> (out: String)
    ensures
        out@ == visible(links@, path@),
{
    let out = lexical_path(path);
    let mut next: usize = 0;
    assert(links@.skip(0) =~= links@);
    while next < links.len()
        invariant
            next <= links@.len(),
            out@ == paths::lexical(path@),
            linked(links@.skip(next as int), out@) == visible(links@, path@),
        decreases links@.len() - next,
    {
        let ghost rest = links@.skip(next as int);
        assert(rest[0] == links@[next as int]);
        assert(rest.drop_first() =~= links@.skip(next + 1));
        let link = &links[next];
        if link.verified && starts_with(out.as_str(), link.physical.as_str()) {
            return move_path(out.as_str(), link.physical.as_str(), link.logical.as_str());
        }
        next = next + 1;
    }
    assert(links@.skip(next as int) =~= Seq::<Firmlink>::empty());
    out
}

/// Whether a path lies strictly below another.
pub open spec fn strictly_below(path: Seq<char>, base: Seq<char>) -> bool {
    paths::path_starts_with(path, base) && paths::components(path).len() > paths::components(
        base,
    ).len()
}

/// A path below a link of the operating system, as the path that the link leads to.
pub open spec fn dealiased(aliases: Seq<Alias>, path: Seq<char>) -> Seq<char>
    decreases aliases.len(),
{
    if aliases.len() == 0 {
        path
    } else if strictly_below(path, aliases[0].logical@) {
        moved(path, aliases[0].logical@, aliases[0].physical@)
    } else {
        dealiased(aliases.drop_first(), path)
    }
}

/// Spell a path below a link that the operating system keeps by where the link leads. The link
/// itself stays a link.
pub fn system_path(path: &str, aliases: &Vec<Alias>) -> (out: String)
    ensures
        out@ == dealiased(aliases@, path@),
{
    let mut next: usize = 0;
    assert(aliases@.skip(0) =~= aliases@);
    while next < aliases.len()
        invariant
            next <= aliases@.len(),
            dealiased(aliases@.skip(next as int), path@) == dealiased(aliases@, path@),
        decreases aliases@.len() - next,
    {
        let ghost rest = aliases@.skip(next as int);
        assert(rest[0] == aliases@[next as int]);
        assert(rest.drop_first() =~= aliases@.skip(next + 1));
        let alias = &aliases[next];
        let (depth, base) = (component_texts(path), component_texts(alias.logical.as_str()));
        proof {
            assert(paths::components(path@).len() == depth@.len());
            assert(paths::components(alias.logical@).len() == base@.len());
        }
        if starts_with(path, alias.logical.as_str()) && depth.len() > base.len() {
            return move_path(path, alias.logical.as_str(), alias.physical.as_str());
        }
        next = next + 1;
    }
    assert(aliases@.skip(next as int) =~= Seq::<Alias>::empty());
    path.to_owned()
}

impl HostNames {
    /// The name of an observed path in the index.
    pub open spec fn observed(&self, path: Seq<char>) -> Seq<char> {
        visible(self.firmlinks@, dealiased(self.aliases@, path))
    }

    /// The name of an observed path in the index.
    pub fn observed_path(&self, path: &str) -> (out: String)
        ensures
            out@ == self.observed(path@),
    {
        let spelled = system_path(path, &self.aliases);
        visible_path(spelled.as_str(), &self.firmlinks)
    }
}

/// Some of `scopes` is the path or above it.
pub open spec fn covered(scopes: Seq<Seq<char>>, path: Seq<char>) -> bool {
    exists|i: int| 0 <= i < scopes.len() && paths::is_ancestor(#[trigger] scopes[i], path)
}

/// Some of `scopes` names the path.
pub open spec fn names_path(scopes: Seq<Seq<char>>, path: Seq<char>) -> bool {
    exists|i: int|
        0 <= i < scopes.len() && paths::components(#[trigger] scopes[i]) == paths::components(path)
}

/// The first spelling of each of some paths.
pub open spec fn different_paths(list: Seq<Seq<char>>) -> Seq<Seq<char>>
    decreases list.len(),
{
    if list.len() == 0 {
        list
    } else {
        let before = different_paths(list.drop_last());
        if names_path(before, list.last()) {
            before
        } else {
            before.push(list.last())
        }
    }
}

/// Different spellings of a path cover the same paths.
proof fn lemma_different_paths(list: Seq<Seq<char>>, path: Seq<char>)
    ensures
        covered(different_paths(list), path) == covered(list, path),
        names_path(different_paths(list), path) == names_path(list, path),
    decreases list.len(),
{
    if list.len() > 0 {
        let (init, last) = (list.drop_last(), list.last());
        let (before, after) = (different_paths(init), different_paths(list));
        lemma_different_paths(init, path);
        lemma_different_paths(init, last);
        assert(list[list.len() - 1] == last);
        if names_path(before, last) {
            let k = choose|k: int|
                0 <= k < before.len() && paths::components(#[trigger] before[k])
                    == paths::components(last);
            if paths::is_ancestor(last, path) {
                assert(paths::is_ancestor(before[k], path));
            }
            if paths::components(last) == paths::components(path) {
                assert(paths::components(before[k]) == paths::components(path));
            }
        } else {
            assert(after[before.len() as int] == last);
            if covered(before, path) {
                let i = choose|i: int|
                    0 <= i < before.len() && paths::is_ancestor(#[trigger] before[i], path);
                assert(after[i] == before[i]);
            }
            if names_path(before, path) {
                let i = choose|i: int|
                    0 <= i < before.len() && paths::components(#[trigger] before[i])
                        == paths::components(path);
                assert(after[i] == before[i]);
            }
        }
        if covered(init, path) {
            let i = choose|i: int|
                0 <= i < init.len() && paths::is_ancestor(#[trigger] init[i], path);
            assert(list[i] == init[i]);
        }
        if covered(list, path) {
            let i = choose|i: int|
                0 <= i < list.len() && paths::is_ancestor(#[trigger] list[i], path);
            if i < init.len() {
                assert(init[i] == list[i]);
            }
        }
        if names_path(init, path) {
            let i = choose|i: int|
                0 <= i < init.len() && paths::components(#[trigger] init[i]) == paths::components(
                    path,
                );
            assert(list[i] == init[i]);
        }
        if names_path(list, path) {
            let i = choose|i: int|
                0 <= i < list.len() && paths::components(#[trigger] list[i]) == paths::components(
                    path,
                );
            if i < init.len() {
                assert(init[i] == list[i]);
            }
        }
        if covered(after, path) {
            let i = choose|i: int|
                0 <= i < after.len() && paths::is_ancestor(#[trigger] after[i], path);
            if i < before.len() {
                assert(before[i] == after[i]);
            }
        }
        if names_path(after, path) {
            let i = choose|i: int|
                0 <= i < after.len() && paths::components(#[trigger] after[i])
                    == paths::components(path);
            if i < before.len() {
                assert(before[i] == after[i]);
            }
        }
    }
}

/// A set of paths by which others are covered. What covers a path is searched for by the path's
/// own components and those above it, so the cost goes by its depth and hardly by how many paths
/// the set has.
pub struct PathScopes {
    roots: Vec<String>,
    index: ComponentIndex,
}

impl View for PathScopes {
    type V = Seq<Seq<char>>;

    closed spec fn view(&self) -> Seq<Seq<char>> {
        text::texts(self.roots@)
    }
}

/// Each path of a list is found by its components, and nothing else is.
spec fn indexes(index: Map<Seq<Seq<char>>, usize>, list: Seq<Seq<char>>) -> bool {
    &&& forall|i: int|
        0 <= i < list.len() ==> index.contains_key(paths::components(#[trigger] list[i]))
            && index[paths::components(list[i])] == i
    &&& forall|parts: Seq<Seq<char>>| #[trigger]
        index.contains_key(parts) ==> index[parts] < list.len() && paths::components(
            list[index[parts] as int],
        ) == parts
}

/// What is above a path has the path's first components, and begins at the root if the path does.
proof fn lemma_ancestor_count(base: Seq<char>, path: Seq<char>)
    ensures
        paths::is_ancestor(base, path) == ({
            let count = paths::components(base).len();
            &&& (if paths::has_root(path) { 1int } else { 0int }) <= count <= paths::components(
                path,
            ).len()
            &&& paths::components(base) == paths::components(path).take(count as int)
        }),
        paths::has_root(path) ==> paths::components(path).len() > 0,
{
    paths::lemma_root_component(path);
    let (x, y) = (paths::components(base), paths::components(path));
    if x.len() <= y.len() {
        assert(y.take(x.len() as int) =~= y.subrange(0, x.len() as int));
    }
}

impl PathScopes {
    #[verifier::type_invariant]
    spec fn well_formed(self) -> bool {
        self.index.well_formed() && indexes(self.index@, text::texts(self.roots@))
    }

    /// No paths.
    pub fn empty() -> (scopes: Self)
        ensures
            scopes@ == Seq::<Seq<char>>::empty(),
    {
        let scopes = PathScopes { roots: Vec::new(), index: ComponentIndex::empty() };
        assert(scopes@ =~= Seq::<Seq<char>>::empty());
        scopes
    }

    pub fn from_paths(paths: &[String]) -> (scopes: Self)
        ensures
            scopes@ == different_paths(text::texts(paths@)),
            forall|path: Seq<char>| #[trigger]
                covered(scopes@, path) == covered(text::texts(paths@), path),
            forall|path: Seq<char>| #[trigger]
                names_path(scopes@, path) == names_path(text::texts(paths@), path),
    {
        let ghost list = text::texts(paths@);
        let mut scopes = PathScopes::empty();
        let mut next: usize = 0;
        assert(list.take(0) =~= Seq::<Seq<char>>::empty());
        while next < paths.len()
            invariant
                next <= paths@.len(),
                list == text::texts(paths@),
                scopes@ == different_paths(list.take(next as int)),
            decreases paths@.len() - next,
        {
            let ghost part = list.take(next + 1);
            assert(part.drop_last() =~= list.take(next as int));
            assert(part.last() == paths@[next as int]@);
            scopes.insert(paths[next].as_str());
            next = next + 1;
        }
        proof {
            assert(list.take(next as int) =~= list);
            assert forall|path: Seq<char>| #[trigger]
                covered(scopes@, path) == covered(list, path) by {
                lemma_different_paths(list, path);
            }
            assert forall|path: Seq<char>| #[trigger]
                names_path(scopes@, path) == names_path(list, path) by {
                lemma_different_paths(list, path);
            }
        }
        scopes
    }

    /// Add a path unless it is there, in whatever spelling.
    pub fn insert(&mut self, path: &str)
        ensures
            final(self)@ == (if names_path(old(self)@, path@) {
                old(self)@
            } else {
                old(self)@.push(path@)
            }),
    {
        proof {
            use_type_invariant(&*self);
        }
        let parts = component_texts(path);
        let count = parts.len();
        let ghost all = text::texts(parts@);
        assert(all.take(count as int) =~= all);
        if self.index.find(&parts, count).is_some() {
            assert(self@[self.index@[all] as int] == self.roots@[self.index@[all] as int]@);
            return;
        }
        let mut taken = PathScopes::empty();
        std::mem::swap(self, &mut taken);
        let PathScopes { mut roots, mut index } = taken;
        let ghost (list, was) = (text::texts(roots@), index@);
        proof {
            if names_path(list, path@) {
                let i = choose|i: int|
                    0 <= i < list.len() && paths::components(#[trigger] list[i]) == all;
                assert(was.contains_key(paths::components(list[i])));
            }
        }
        let place = roots.len();
        roots.push(path.to_owned());
        index.insert(parts, place);
        proof {
            let more = text::texts(roots@);
            assert(more =~= list.push(path@));
            assert forall|i: int| 0 <= i < more.len() implies index@.contains_key(
                paths::components(#[trigger] more[i]),
            ) && index@[paths::components(more[i])] == i by {
                if i < list.len() {
                    assert(more[i] == list[i]);
                    assert(was.contains_key(paths::components(list[i])));
                }
            }
            assert forall|p: Seq<Seq<char>>| #[trigger] index@.contains_key(p) implies index@[p]
                < more.len() && paths::components(more[index@[p] as int]) == p by {
                if p != all {
                    assert(was.contains_key(p));
                    assert(more[was[p] as int] == list[was[p] as int]);
                }
            }
        }
        *self = PathScopes { roots, index };
        assert(self@ =~= list.push(path@));
    }

    pub fn contains(&self, path: &str) -> (found: bool)
        ensures
            found == names_path(self@, path@),
    {
        proof {
            use_type_invariant(self);
        }
        let parts = component_texts(path);
        let found = self.index.find(&parts, parts.len()).is_some();
        proof {
            let all = text::texts(parts@);
            assert(all.take(parts@.len() as int) =~= all);
            if found {
                assert(paths::components(self@[self.index@[all] as int]) == all);
            }
        }
        found
    }

    /// Whether the path or one above it is in the set.
    pub fn covers(&self, path: &str) -> (found: bool)
        ensures
            found == covered(self@, path@),
    {
        let any = |root: &str| -> (yes: bool)
            ensures
                yes == true,
            { true };
        self.covers_where(path, any)
    }

    /// Whether the path or one above it is in the set and accepted.
    pub fn covers_where<A: Fn(&str) -> bool>(&self, path: &str, accepts: A) -> (found: bool)
        requires
            forall|root: &str| #[trigger] call_requires(accepts, (root,)),
        ensures
            found ==> self.accepted(path@, accepts),
            !found ==> self.rejected(path@, accepts),
    {
        self.search_up(path, accepts).found
    }

    /// Some path of the set is accepted that is the path or above it.
    pub open spec fn accepted<A: Fn(&str) -> bool>(&self, path: Seq<char>, accepts: A) -> bool {
        exists|i: int, root: &str|
            0 <= i < self@.len() && #[trigger] self@[i] == root@ && paths::is_ancestor(root@, path)
                && #[trigger] call_ensures(accepts, (root,), true)
    }

    /// Each path of the set that is the path or above it is rejected.
    pub open spec fn rejected<A: Fn(&str) -> bool>(&self, path: Seq<char>, accepts: A) -> bool {
        forall|i: int|
            0 <= i < self@.len() && paths::is_ancestor(#[trigger] self@[i], path)
                ==> exists|root: &str|
                root@ == self@[i] && #[trigger] call_ensures(accepts, (root,), false)
    }

    /// Search the set for a path and, from there, for one above it after the other, up to the
    /// first that is in the set and accepted. The search goes up no further than the path is deep,
    /// however many paths the set has.
    pub fn search_up<A: Fn(&str) -> bool>(&self, path: &str, accepts: A) -> (covering: Covering)
        requires
            forall|root: &str| #[trigger] call_requires(accepts, (root,)),
        ensures
            covering.found ==> self.accepted(path@, accepts),
            !covering.found ==> self.rejected(path@, accepts),
            covering.levels <= paths::components(path@).len(),
            paths::has_root(path@) ==> covering.levels < paths::components(path@).len(),
    {
        proof {
            use_type_invariant(self);
            lemma_ancestor_count(path@, path@);
        }
        let parts = component_texts(path);
        let ghost all = text::texts(parts@);
        let least: usize = if is_absolute(path) {
            1
        } else {
            0
        };
        let mut levels: usize = 0;
        let mut more: bool = true;
        while more
            invariant
                self.well_formed(),
                forall|root: &str| #[trigger] call_requires(accepts, (root,)),
                all == text::texts(parts@),
                all == paths::components(path@),
                least == (if paths::has_root(path@) { 1int } else { 0int }),
                least + levels <= parts@.len(),
                !more ==> least + levels == parts@.len(),
                forall|i: int|
                    0 <= i < self@.len() && paths::is_ancestor(#[trigger] self@[i], path@) && (
                    paths::components(self@[i]).len() > parts@.len() - levels || !more)
                        ==> exists|root: &str|
                        root@ == self@[i] && #[trigger] call_ensures(accepts, (root,), false),
            decreases
                parts@.len() - levels + (if more {
                    1int
                } else {
                    0int
                }),
        {
            let count = parts.len() - levels;
            let ghost wanted = all.take(count as int);
            match self.index.find(&parts, count) {
                Some(place) => {
                    let root = self.roots[place].as_str();
                    assert(self@[place as int] == root@);
                    proof {
                        lemma_ancestor_count(root@, path@);
                    }
                    if accepts(root) {
                        return Covering { found: true, levels };
                    }
                },
                None => {},
            }
            proof {
                assert forall|i: int|
                    0 <= i < self@.len() && paths::is_ancestor(#[trigger] self@[i], path@)
                        && paths::components(self@[i]).len() >= count implies exists|root: &str|
                    root@ == self@[i] && #[trigger] call_ensures(accepts, (root,), false) by {
                    lemma_ancestor_count(self@[i], path@);
                    if paths::components(self@[i]).len() == count {
                        assert(self.index@[wanted] == i);
                    }
                }
                assert forall|i: int|
                    0 <= i < self@.len() && paths::is_ancestor(
                        #[trigger] self@[i],
                        path@,
                    ) implies paths::components(self@[i]).len() >= least by {
                    lemma_ancestor_count(self@[i], path@);
                }
            }
            if count == least {
                more = false;
            } else {
                levels = levels + 1;
            }
        }
        Covering { found: false, levels }
    }
}

/// What a search for a covering path came to.
#[derive(Clone, Copy, Debug, PartialEq, Eq, Structural)]
pub struct Covering {
    /// A path that covers was found and accepted.
    pub found: bool,
    /// How many levels above the path the search went; one search was made on each, and one for
    /// the path itself.
    pub levels: usize,
}

/// A root that lies in another and, with its whole tree, in that one's namespace.
pub open spec fn absorbs(kept: Seq<char>, root: Seq<char>) -> bool {
    paths::is_ancestor(kept, root) && tree_in_namespace(root, seq![kept])
}

/// Roots without those that an earlier one absorbs.
pub open spec fn compacted(roots: Seq<Seq<char>>) -> Seq<Seq<char>>
    decreases roots.len(),
{
    if roots.len() == 0 {
        roots
    } else {
        let kept = compacted(roots.drop_last());
        let root = roots.last();
        if exists|i: int| 0 <= i < kept.len() && absorbs(#[trigger] kept[i], root) {
            kept
        } else {
            kept.push(root)
        }
    }
}

/// A path is absorbed by another spelling of it.
proof fn lemma_spelling_absorbed(kept: Seq<Seq<char>>, root: Seq<char>)
    requires
        names_path(kept, root),
    ensures
        exists|i: int| 0 <= i < kept.len() && absorbs(#[trigger] kept[i], root),
{
    let i = choose|i: int|
        0 <= i < kept.len() && paths::components(#[trigger] kept[i]) == paths::components(root);
    let parts = paths::components(root);
    assert(parts.subrange(0, parts.len() as int) =~= parts);
    paths::lemma_root_component(root);
    assert(seq![kept[i]][0] == kept[i]);
    if paths::path_starts_with(root, SYSTEM_VOLUMES@) {
        assert(holds_volume(root, seq![kept[i]][0]));
    }
    assert(absorbs(kept[i], root));
}

/// Whether one of some scopes absorbs a root.
fn absorbed(kept: &PathScopes, root: &str) -> (yes: bool)
    ensures
        yes == exists|i: int| 0 <= i < kept@.len() && absorbs(#[trigger] kept@[i], root@),
{
    let holds = |parent: &str| -> (inside: bool)
        ensures
            inside == tree_in_namespace(root@, seq![parent@]),
        {
            let one = vec![parent.to_owned()];
            assert(text::texts(one@) =~= seq![parent@]);
            subtree_in_namespace(root, one.as_slice())
        };
    kept.covers_where(root, holds)
}

/// The scopes that a list of mapped roots comes to.
pub open spec fn compact(roots: Seq<Seq<char>>) -> Seq<Seq<char>> {
    compacted(text_order::sorted_distinct(roots))
}

/// Collapse already mapped scopes without resolving or inventing aliases. Namespace exceptions
/// still decide whether a matching ancestor covers a root.
pub fn compact_roots<C: Fn() -> bool>(roots: Vec<String>, cancelled: C) -> (result: Option<
    Vec<String>,
>)
    requires
        call_requires(cancelled, ()),
    ensures
        match result {
            Some(kept) => text::texts(kept@) == compact(text::texts(roots@))
                && !cancellation::always(cancelled),
            None => call_ensures(cancelled, (), true),
        },
{
    compact_by(roots, &cancelled)
}

pub(crate) fn compact_by<C: Fn() -> bool>(roots: Vec<String>, cancelled: &C) -> (result: Option<
    Vec<String>,
>)
    requires
        call_requires(*cancelled, ()),
    ensures
        match result {
            Some(kept) => text::texts(kept@) == compact(text::texts(roots@))
                && !cancellation::always(*cancelled),
            None => call_ensures(*cancelled, (), true),
        },
{
    if cancelled() {
        return None;
    }
    let ghost given = text::texts(roots@);
    let sorted = sort_distinct(roots);
    let ghost list = text::texts(sorted@);
    let mut scopes = PathScopes::empty();
    let mut kept: Vec<String> = Vec::new();
    let mut next: usize = 0;
    assert(list.take(0) =~= Seq::<Seq<char>>::empty());
    assert(text::texts(kept@) =~= Seq::<Seq<char>>::empty());
    while next < sorted.len()
        invariant
            next <= sorted@.len(),
            call_requires(*cancelled, ()),
            call_ensures(*cancelled, (), false),
            list == text::texts(sorted@),
            text::texts(kept@) == compacted(list.take(next as int)),
            scopes@ == text::texts(kept@),
        decreases sorted@.len() - next,
    {
        if cancelled() {
            return None;
        }
        let ghost part = list.take(next + 1);
        let ghost before = text::texts(kept@);
        assert(part.drop_last() =~= list.take(next as int));
        assert(part.last() == sorted@[next as int]@);
        let root = sorted[next].as_str();
        if !absorbed(&scopes, root) {
            proof {
                if names_path(before, root@) {
                    lemma_spelling_absorbed(before, root@);
                }
            }
            scopes.insert(root);
            kept.push(root.to_owned());
            assert(text::texts(kept@) =~= before.push(root@));
        }
        next = next + 1;
    }
    assert(list.take(next as int) =~= list);
    Some(kept)
}

proof fn lemma_compacted(roots: Seq<Seq<char>>, path: Seq<char>)
    ensures
        covered(compacted(roots), path) == covered(roots, path),
        forall|t: Seq<char>| #[trigger] compacted(roots).contains(t) ==> roots.contains(t),
    decreases roots.len(),
{
    if roots.len() > 0 {
        let (init, root) = (roots.drop_last(), roots.last());
        let (kept, all) = (compacted(init), compacted(roots));
        lemma_compacted(init, path);
        assert(roots[roots.len() - 1] == root);
        if exists|i: int| 0 <= i < kept.len() && absorbs(#[trigger] kept[i], root) {
            let k = choose|k: int| 0 <= k < kept.len() && absorbs(#[trigger] kept[k], root);
            if paths::is_ancestor(root, path) {
                paths::lemma_ancestor_transitive(kept[k], root, path);
            }
        } else {
            assert(all[kept.len() as int] == root);
            if covered(kept, path) {
                let i = choose|i: int|
                    0 <= i < kept.len() && paths::is_ancestor(#[trigger] kept[i], path);
                assert(all[i] == kept[i]);
            }
            if covered(all, path) {
                let i = choose|i: int|
                    0 <= i < all.len() && paths::is_ancestor(#[trigger] all[i], path);
                if i < kept.len() {
                    assert(kept[i] == all[i]);
                }
            }
        }
        if covered(init, path) {
            let i = choose|i: int|
                0 <= i < init.len() && paths::is_ancestor(#[trigger] init[i], path);
            assert(roots[i] == init[i]);
        }
        if covered(roots, path) {
            let i = choose|i: int|
                0 <= i < roots.len() && paths::is_ancestor(#[trigger] roots[i], path);
            if i < init.len() {
                assert(init[i] == roots[i]);
            }
        }
        assert forall|t: Seq<char>| #[trigger] all.contains(t) implies roots.contains(t) by {
            let i = choose|i: int| 0 <= i < all.len() && all[i] == t;
            if i < kept.len() {
                assert(kept[i] == t);
                assert(kept.contains(t));
                let j = choose|j: int| 0 <= j < init.len() && init[j] == t;
                assert(roots[j] == t);
            }
        }
    }
}

/// The scopes that roots are collapsed to cover the same paths, and no scope is invented.
pub proof fn law_compaction_keeps_coverage(roots: Seq<Seq<char>>)
    ensures
        forall|path: Seq<char>| #[trigger] covered(compact(roots), path) == covered(roots, path),
        forall|t: Seq<char>| #[trigger] compact(roots).contains(t) ==> roots.contains(t),
{
    let sorted = text_order::sorted_distinct(roots);
    text_order::lemma_sorted_exists(roots);
    assert forall|path: Seq<char>| #[trigger]
        covered(compact(roots), path) == covered(roots, path) by {
        lemma_compacted(sorted, path);
        if covered(roots, path) {
            let i = choose|i: int|
                0 <= i < roots.len() && paths::is_ancestor(#[trigger] roots[i], path);
            assert(roots.contains(roots[i]));
            assert(sorted.contains(roots[i]));
            let j = choose|j: int| 0 <= j < sorted.len() && sorted[j] == roots[i];
            assert(paths::is_ancestor(sorted[j], path));
        }
        if covered(sorted, path) {
            let j = choose|j: int|
                0 <= j < sorted.len() && paths::is_ancestor(#[trigger] sorted[j], path);
            assert(sorted.contains(sorted[j]));
            let i = choose|i: int| 0 <= i < roots.len() && roots[i] == sorted[j];
            assert(paths::is_ancestor(roots[i], path));
        }
    }
    assert forall|t: Seq<char>| #[trigger] compact(roots).contains(t) implies roots.contains(t) by {
        lemma_compacted(sorted, t);
        assert(sorted.contains(t));
    }
}

/// No path of a list is absorbed by one that stands before it.
spec fn settled(list: Seq<Seq<char>>) -> bool {
    forall|i: int, j: int|
        0 <= i < j < list.len() ==> !absorbs(#[trigger] list[i], #[trigger] list[j])
}

proof fn lemma_compacted_settled(roots: Seq<Seq<char>>)
    requires
        text_order::ascending(roots),
    ensures
        settled(compacted(roots)),
        text_order::ascending(compacted(roots)),
    decreases roots.len(),
{
    if roots.len() > 0 {
        let (init, root) = (roots.drop_last(), roots.last());
        let (kept, all) = (compacted(init), compacted(roots));
        assert(text_order::ascending(init)) by {
            assert forall|i: int, j: int| 0 <= i < j < init.len() implies text_order::text_before(
                #[trigger] init[i],
                #[trigger] init[j],
            ) by {
                assert(init[i] == roots[i] && init[j] == roots[j]);
            }
        }
        lemma_compacted_settled(init);
        lemma_compacted(init, root);
        if all != kept {
            assert forall|i: int, j: int| 0 <= i < j < all.len() implies !absorbs(
                #[trigger] all[i],
                #[trigger] all[j],
            ) && text_order::text_before(all[i], all[j]) by {
                assert(all[i] == kept[i]);
                if j < kept.len() {
                    assert(all[j] == kept[j]);
                } else {
                    assert(all[j] == root);
                    assert(kept.contains(kept[i]));
                    let k = choose|k: int| 0 <= k < init.len() && init[k] == kept[i];
                    assert(roots[k] == kept[i]);
                    assert(roots[roots.len() - 1] == root);
                }
            }
        }
    }
}

proof fn lemma_settled_stays(list: Seq<Seq<char>>)
    requires
        settled(list),
    ensures
        compacted(list) == list,
    decreases list.len(),
{
    if list.len() > 0 {
        let init = list.drop_last();
        assert(settled(init)) by {
            assert forall|i: int, j: int| 0 <= i < j < init.len() implies !absorbs(
                #[trigger] init[i],
                #[trigger] init[j],
            ) by {
                assert(init[i] == list[i] && init[j] == list[j]);
            }
        }
        lemma_settled_stays(init);
        assert forall|i: int| 0 <= i < init.len() implies !absorbs(
            #[trigger] init[i],
            list.last(),
        ) by {
            assert(init[i] == list[i] && list.last() == list[list.len() - 1]);
        }
        assert(list =~= init.push(list.last()));
    }
}

/// Collapsed roots are in order without repetition, and collapsing them again changes nothing.
pub proof fn law_compaction_is_idempotent(roots: Seq<Seq<char>>)
    ensures
        text_order::ascending(compact(roots)),
        compact(compact(roots)) == compact(roots),
{
    let sorted = text_order::sorted_distinct(roots);
    let kept = compact(roots);
    text_order::lemma_sorted_exists(roots);
    lemma_compacted_settled(sorted);
    text_order::lemma_sorted_exists(kept);
    text_order::lemma_ascending_unique(text_order::sorted_distinct(kept), kept);
    lemma_settled_stays(kept);
}

/// A root absorbs itself.
proof fn lemma_absorbs_itself(root: Seq<char>)
    ensures
        absorbs(root, root),
{
    let parts = paths::components(root);
    assert(parts.subrange(0, parts.len() as int) =~= parts);
    paths::lemma_root_component(root);
    if paths::path_starts_with(root, SYSTEM_VOLUMES@) {
        assert(holds_volume(root, seq![root][0]));
    }
}

proof fn lemma_each_absorbed(roots: Seq<Seq<char>>, root: Seq<char>)
    requires
        roots.contains(root),
    ensures
        exists|i: int| 0 <= i < compacted(roots).len() && absorbs(#[trigger] compacted(roots)[i], root),
    decreases roots.len(),
{
    let (init, last) = (roots.drop_last(), roots.last());
    let (kept, all) = (compacted(init), compacted(roots));
    if root == last {
        if !(exists|i: int| 0 <= i < kept.len() && absorbs(#[trigger] kept[i], last)) {
            lemma_absorbs_itself(root);
            assert(all[kept.len() as int] == root);
        }
    } else {
        let k = choose|k: int| 0 <= k < roots.len() && roots[k] == root;
        assert(init[k] == root);
        lemma_each_absorbed(init, root);
        let i = choose|i: int| 0 <= i < kept.len() && absorbs(#[trigger] kept[i], root);
        assert(all[i] == kept[i]);
    }
}

/// Every root is absorbed by one that is left after collapsing: it lies in that one and, with its
/// whole tree, in its namespace.
pub proof fn law_every_root_is_absorbed(roots: Seq<Seq<char>>, root: Seq<char>)
    requires
        roots.contains(root),
    ensures
        exists|i: int| 0 <= i < compact(roots).len() && absorbs(#[trigger] compact(roots)[i], root),
{
    let sorted = text_order::sorted_distinct(roots);
    text_order::lemma_sorted_exists(roots);
    assert(sorted.contains(root));
    lemma_each_absorbed(sorted, root);
    let i = choose|i: int| 0 <= i < compacted(sorted).len() && absorbs(
        #[trigger] compacted(sorted)[i],
        root,
    );
    assert(absorbs(compact(roots)[i], root));
}

/// Of roots without `.` and `..`, none that is left after collapsing absorbs another: none
/// lies, with its whole tree, in the namespace of another.
pub proof fn law_compacted_roots_do_not_absorb_each_other(
    roots: Seq<Seq<char>>,
    a: Seq<char>,
    b: Seq<char>,
)
    requires
        forall|i: int| 0 <= i < roots.len() ==> paths::lexical(#[trigger] roots[i]) == roots[i],
        compact(roots).contains(a),
        compact(roots).contains(b),
        a != b,
    ensures
        !absorbs(a, b),
{
    let kept = compact(roots);
    text_order::lemma_sorted_exists(roots);
    lemma_compacted_settled(text_order::sorted_distinct(roots));
    law_compaction_keeps_coverage(roots);
    assert(roots.contains(a) && roots.contains(b));
    if absorbs(a, b) {
        let i = choose|i: int| 0 <= i < kept.len() && kept[i] == a;
        let j = choose|j: int| 0 <= j < kept.len() && kept[j] == b;
        assert(j < i);
        assert(text_order::text_before(kept[j], kept[i]));
        text_order::lemma_text_order(a, b);
        paths::lemma_normal_ancestor_begins(a, b);
        if a.len() < b.len() {
            text_order::lemma_beginning_comes_first(b, a.len() as int);
        } else {
            assert(b.take(a.len() as int) =~= b);
        }
    }
}

} // verus!
