//! What scans take in and how paths are named, said of the paths' own names and of what the host
//! shows.
use crate::paths;
use crate::query::lexer;
use crate::scanner::entry;
use crate::scanner::entry::{FileKind, FileMetadata};
use crate::scanner::events;
use crate::scanner::events::EventView;
use crate::scanner::firmlinks;
use crate::scanner::namespace;
use crate::scanner::namespace::{Firmlink, HostNames};
use crate::scanner::plan;
use crate::scanner::presence;
use crate::scanner::presence::Presence;
use crate::scanner::selection;
use crate::scanner::traversal;
use crate::text;
use vstd::prelude::*;

verus! {

/// An entry is named by what stands behind the last slash of its path.
pub proof fn law_entries_are_named_by_their_last_name(
    base: Seq<char>,
    name: Seq<char>,
    metadata: FileMetadata,
)
    requires
        paths::has_root(base),
        paths::is_component(name),
        !name.contains('/'),
        name != seq!['.', '.'],
    ensures
        entry::entry_of(base + seq!['/'] + name, metadata).name == name,
        entry::entry_of(base + seq!['/'] + name, metadata).path == base + seq!['/'] + name,
{
    paths::lemma_child_components(base, name);
    let path = base + seq!['/'] + name;
    assert(paths::components(path).last() == name);
    assert(name != seq!['/']) by {
        assert(seq!['/'][0] == '/');
        assert(name.len() > 0 && name[0] == '/' ==> name.contains('/'));
    }
}

proof fn lemma_last_dot(stem: Seq<char>, ending: Seq<char>)
    requires
        !ending.contains('.'),
    ensures
        text::last_at(stem + seq!['.'] + ending, '.') == stem.len(),
    decreases ending.len(),
{
    let name = stem + seq!['.'] + ending;
    if ending.len() == 0 {
        assert(name.last() == '.');
    } else {
        let init = ending.drop_last();
        assert(name.drop_last() =~= stem + seq!['.'] + init);
        assert(name.last() == ending.last());
        assert(ending.contains(ending.last()));
        assert forall|c: char| init.contains(c) implies ending.contains(c) by {
            let i = choose|i: int| 0 <= i < init.len() && init[i] == c;
            assert(ending[i] == c);
        }
        lemma_last_dot(stem, init);
    }
}

proof fn lemma_no_dot(name: Seq<char>)
    requires
        !name.contains('.'),
    ensures
        text::last_at(name, '.') < 0,
    decreases name.len(),
{
    if name.len() > 0 {
        assert(name.contains(name.last()));
        let init = name.drop_last();
        assert forall|c: char| init.contains(c) implies name.contains(c) by {
            let i = choose|i: int| 0 <= i < init.len() && init[i] == c;
            assert(name[i] == c);
        }
        lemma_no_dot(init);
    }
}

/// The extension of a file is what follows the last dot of its name, in lower case. A name without
/// dots has none, a dot at the start of a name begins none, and a directory never has one.
pub proof fn law_extensions_follow_the_last_dot(
    base: Seq<char>,
    stem: Seq<char>,
    ending: Seq<char>,
    metadata: FileMetadata,
)
    requires
        paths::has_root(base),
        !stem.contains('/'),
        !ending.contains('/'),
        !ending.contains('.'),
        ending.len() > 0,
    ensures
        stem.len() > 0 && metadata.kind != FileKind::Directory ==> entry::entry_of(
            base + seq!['/'] + (stem + seq!['.'] + ending),
            metadata,
        ).extension == text::lowercase(ending),
        metadata.kind != FileKind::Directory ==> entry::entry_of(
            base + seq!['/'] + (seq!['.'] + ending),
            metadata,
        ).extension == Seq::<char>::empty(),
        metadata.kind != FileKind::Directory ==> entry::entry_of(
            base + seq!['/'] + ending,
            metadata,
        ).extension == Seq::<char>::empty(),
        metadata.kind == FileKind::Directory ==> entry::entry_of(
            base + seq!['/'] + (stem + seq!['.'] + ending),
            metadata,
        ).extension == Seq::<char>::empty(),
{
    let name = stem + seq!['.'] + ending;
    let hidden = seq!['.'] + ending;
    assert(hidden =~= Seq::<char>::empty() + seq!['.'] + ending);
    lemma_last_dot(stem, ending);
    lemma_last_dot(Seq::empty(), ending);
    lemma_no_dot(ending);
    assert(name.skip(stem.len() + 1int) =~= ending);
    assert(name.skip(name.len() - ending.len()) =~= ending);
    assert(hidden.skip(hidden.len() - ending.len()) =~= ending);
    assert(ending.skip(0) =~= ending);
    lemma_plain_name(base, name, ending);
    lemma_plain_name(base, hidden, ending);
    lemma_plain_name(base, ending, ending);
}

proof fn lemma_plain_name(base: Seq<char>, name: Seq<char>, ending: Seq<char>)
    requires
        paths::has_root(base),
        ending.len() > 0,
        !ending.contains('.'),
        !ending.contains('/'),
        name.len() >= ending.len(),
        name.skip(name.len() - ending.len()) == ending,
        forall|i: int| 0 <= i < name.len() - ending.len() ==> #[trigger] name[i] != '/',
    ensures
        selection::file_name(base + seq!['/'] + name) == Some(name),
{
    let last = name.last();
    assert(name.skip(name.len() - ending.len()).last() == last);
    assert(ending.contains(ending.last()));
    assert(last != '.' && last != '/');
    assert(seq!['.'].last() == '.' && seq!['.', '.'].last() == '.' && seq!['/'].last() == '/');
    if name.contains('/') {
        let i = choose|i: int| 0 <= i < name.len() && name[i] == '/';
        let from = name.len() - ending.len();
        if i >= from {
            assert(name.skip(from)[i - from] == '/');
            assert(ending.contains('/'));
        }
    }
    paths::lemma_child_components(base, name);
    assert(paths::components(base + seq!['/'] + name).last() == name);
}

/// What a scan leaves out: the host's device and network directories, what was excluded with all
/// below it, and of the hidden volumes' directory what was not chosen. Everything else is taken in
/// where the host can read it.
pub proof fn law_what_scans_leave_out(
    path: Seq<char>,
    configured: Seq<Seq<char>>,
    excluded: Seq<Seq<char>>,
    gap: Seq<char>,
)
    ensures
        path == "/dev"@ || path == "/Network"@ || path == "/net"@ ==> traversal::skipped(
            path,
            configured,
            excluded,
        ),
        excluded.contains(gap) && paths::path_starts_with(path, gap) ==> traversal::skipped(
            path,
            configured,
            excluded,
        ),
        path != "/dev"@ && path != "/Network"@ && path != "/net"@ && !paths::path_starts_with(
            path,
            "/System/Volumes"@,
        ) && (forall|i: int|
            0 <= i < excluded.len() ==> !paths::path_starts_with(path, #[trigger] excluded[i]))
            ==> !traversal::skipped(path, configured, excluded),
        namespace::strictly_below(path, "/System/Volumes"@) && (forall|i: int|
            0 <= i < configured.len() ==> !paths::path_starts_with(
                #[trigger] configured[i],
                "/System/Volumes"@,
            )) && !(paths::path_starts_with(path, "/System/Volumes/Data"@) && configured.contains(
            "/"@,
        )) ==> traversal::skipped(path, configured, excluded),
{
    if excluded.contains(gap) {
        let i = choose|i: int| 0 <= i < excluded.len() && excluded[i] == gap;
        assert(paths::path_starts_with(path, excluded[i]) == paths::path_starts_with(path, gap));
    }
    if namespace::strictly_below(path, "/System/Volumes"@) {
        assert(paths::components(path) != paths::components("/System/Volumes"@));
    }
}

/// A volume that was chosen is part of the namespace with all that is in it, and so are the
/// directories on the way to it; of an index of everything the data volume is too.
pub proof fn law_chosen_volumes_are_in_the_namespace(
    path: Seq<char>,
    configured: Seq<Seq<char>>,
    root: Seq<char>,
)
    requires
        configured.contains(root),
    ensures
        paths::path_starts_with(root, "/System/Volumes"@) && (paths::path_starts_with(path, root)
            || paths::path_starts_with(root, path)) ==> namespace::in_namespace(path, configured),
        root == "/"@ && paths::path_starts_with(path, "/System/Volumes/Data"@)
            ==> namespace::in_namespace(path, configured),
        path == "/System/Volumes"@ ==> namespace::in_namespace(path, configured)
            && (namespace::descends(path, configured) == configured.contains("/System/Volumes"@)),
{
    let i = choose|i: int| 0 <= i < configured.len() && configured[i] == root;
    if paths::path_starts_with(root, "/System/Volumes"@) && (paths::path_starts_with(path, root)
        || paths::path_starts_with(root, path)) {
        assert(namespace::selects_volume(path, configured[i]));
    }
}

/// Scans list the directories that they come upon, and nothing else: no link is followed, and the
/// hidden volumes' directory is entered only where it was chosen.
pub proof fn law_scans_list_directories_alone(
    path: Seq<char>,
    metadata: FileMetadata,
    configured: Seq<Seq<char>>,
)
    ensures
        traversal::listed(entry::entry_of(path, metadata), configured) == (metadata.kind
            == FileKind::Directory && namespace::in_namespace(path, configured) && (path
            != "/System/Volumes"@ || configured.contains("/System/Volumes"@))),
{
}

proof fn lemma_under_moves(base: Seq<char>, first: Seq<char>, rest: Seq<Seq<char>>)
    ensures
        paths::under(base + seq!['/'] + first, rest) == base + seq!['/'] + paths::under(first, rest),
    decreases rest.len(),
{
    if rest.len() > 0 {
        lemma_under_moves(base, first, rest.drop_last());
        let (a, b) = (paths::under(first, rest.drop_last()), rest.last());
        assert((base + seq!['/'] + a) + seq!['/'] + b =~= base + seq!['/'] + (a + seq!['/'] + b));
    }
}

proof fn lemma_under_components(base: Seq<char>, parts: Seq<Seq<char>>)
    requires
        paths::has_root(base),
        forall|i: int|
            0 <= i < parts.len() ==> paths::is_component(#[trigger] parts[i])
                && !parts[i].contains('/'),
    ensures
        paths::has_root(paths::under(base, parts)),
        paths::components(paths::under(base, parts)) == paths::components(base) + parts,
    decreases parts.len(),
{
    if parts.len() == 0 {
        assert(paths::components(base) + parts =~= paths::components(base));
    } else {
        let init = parts.drop_last();
        assert forall|i: int| 0 <= i < init.len() implies paths::is_component(#[trigger] init[i])
            && !init[i].contains('/') by {
            assert(init[i] == parts[i]);
        }
        lemma_under_components(base, init);
        assert(paths::is_component(parts[parts.len() - 1]));
        paths::lemma_child_components(paths::under(base, init), parts.last());
        assert((paths::components(base) + init).push(parts.last()) =~= paths::components(base)
            + parts);
    }
}

/// A path that lies in the target of a verified link is indexed under the link's own name, with the
/// names below it unchanged, as long as no earlier link leads to it; a link that was not verified
/// changes nothing, and neither does one that leads elsewhere.
pub proof fn law_linked_paths_keep_their_names_below(
    links: Seq<Firmlink>,
    path: Seq<char>,
    at: int,
)
    requires
        0 <= at < links.len(),
        forall|i: int|
            0 <= i < at ==> !(#[trigger] links[i]).verified || !paths::path_starts_with(
                paths::lexical(path),
                links[i].physical@,
            ),
        links[at].verified,
        paths::path_starts_with(paths::lexical(path), links[at].physical@),
        paths::has_root(links[at].physical@),
        paths::has_root(links[at].logical@),
        !text::ends_in(links[at].logical@, '/'),
    ensures
        ({
            let below = paths::components(paths::lexical(path)).skip(
                paths::components(links[at].physical@).len() as int,
            );
            paths::components(namespace::visible(links, path)) == paths::components(
                links[at].logical@,
            ) + below
        }),
{
    let plain = paths::lexical(path);
    lemma_linked(links, plain, at);
    let (from, to) = (links[at].physical@, links[at].logical@);
    let parts = paths::components(plain);
    let n = paths::components(from).len() as int;
    let below = parts.skip(n);
    paths::lemma_lexical_names(path);
    paths::lemma_root_component(from);
    assert(n >= 1);
    assert forall|i: int| 0 <= i < below.len() implies paths::is_component(#[trigger] below[i])
        && !below[i].contains('/') by {
        assert(below[i] == parts[n + i]);
    }
    if below.len() == 0 {
        assert(paths::components(to) + below =~= paths::components(to));
    } else {
        let (first, rest) = (below[0], below.drop_first());
        lemma_under_moves(to, first, rest);
        assert(paths::is_component(below[0]));
        let moved = paths::under(first, rest);
        lemma_under_front(first, rest);
        assert(!paths::has_root(moved)) by {
            if first[0] == '/' {
                assert(first.contains('/'));
            }
        }
        assert(paths::path_join(to, moved) == to + seq!['/'] + moved);
        lemma_under_one(to, below);
        lemma_under_components(to, below);
    }
}

proof fn lemma_under_front(first: Seq<char>, rest: Seq<Seq<char>>)
    requires
        first.len() > 0,
    ensures
        paths::under(first, rest).len() > 0,
        paths::under(first, rest)[0] == first[0],
    decreases rest.len(),
{
    if rest.len() > 0 {
        lemma_under_front(first, rest.drop_last());
    }
}

proof fn lemma_under_one(base: Seq<char>, parts: Seq<Seq<char>>)
    requires
        parts.len() > 0,
    ensures
        paths::under(base, parts) == paths::under(base + seq!['/'] + parts[0], parts.drop_first()),
    decreases parts.len(),
{
    if parts.len() == 1 {
        assert(parts.drop_last() =~= Seq::<Seq<char>>::empty());
        assert(parts.drop_first() =~= Seq::<Seq<char>>::empty());
        assert(paths::under(base, Seq::<Seq<char>>::empty()) == base);
        assert(parts.last() == parts[0]);
    } else {
        lemma_under_one(base, parts.drop_last());
        assert(parts.drop_last().drop_first() =~= parts.drop_first().drop_last());
        assert(parts.drop_first().last() == parts.last());
    }
}

proof fn lemma_linked(links: Seq<Firmlink>, plain: Seq<char>, at: int)
    requires
        0 <= at < links.len(),
        forall|i: int|
            0 <= i < at ==> !(#[trigger] links[i]).verified || !paths::path_starts_with(
                plain,
                links[i].physical@,
            ),
        links[at].verified,
        paths::path_starts_with(plain, links[at].physical@),
    ensures
        namespace::linked(links, plain) == namespace::moved(
            plain,
            links[at].physical@,
            links[at].logical@,
        ),
    decreases links.len(),
{
    if at > 0 {
        let rest = links.drop_first();
        assert(!links[0].verified || !paths::path_starts_with(plain, links[0].physical@));
        assert forall|i: int| 0 <= i < at - 1 implies !(#[trigger] rest[i]).verified
            || !paths::path_starts_with(plain, rest[i].physical@) by {
            assert(rest[i] == links[i + 1]);
        }
        lemma_linked(rest, plain, at - 1);
    }
}

/// A path that no verified link leads to is indexed under its own name, without `.` and `..`.
pub proof fn law_other_paths_keep_their_name(links: Seq<Firmlink>, path: Seq<char>)
    requires
        forall|i: int|
            0 <= i < links.len() ==> !(#[trigger] links[i]).verified || !paths::path_starts_with(
                paths::lexical(path),
                links[i].physical@,
            ),
    ensures
        namespace::visible(links, path) == paths::lexical(path),
{
    lemma_not_linked(links, paths::lexical(path));
}

proof fn lemma_not_linked(links: Seq<Firmlink>, plain: Seq<char>)
    requires
        forall|i: int|
            0 <= i < links.len() ==> !(#[trigger] links[i]).verified || !paths::path_starts_with(
                plain,
                links[i].physical@,
            ),
    ensures
        namespace::linked(links, plain) == plain,
    decreases links.len(),
{
    if links.len() > 0 {
        let rest = links.drop_first();
        assert(!links[0].verified || !paths::path_starts_with(plain, links[0].physical@));
        assert forall|i: int| 0 <= i < rest.len() implies !(#[trigger] rest[i]).verified
            || !paths::path_starts_with(plain, rest[i].physical@) by {
            assert(rest[i] == links[i + 1]);
        }
        lemma_not_linked(rest, plain);
    }
}

/// What the watcher keeps of a report: the end of history and lost history always, as reports of
/// the top; of the others those on a branch of a root, at the end of the queue, under the name in
/// the index; and nothing of those elsewhere. A queue that is full is replaced by one report for
/// each root that calls for a scan of it.
pub proof fn law_reports_are_kept_where_a_root_is_concerned(
    names: HostNames,
    roots: Seq<Seq<char>>,
    queue: Seq<EventView>,
    path: Seq<char>,
    event_id: u64,
    flags: u32,
    root: int,
)
    ensures
        ({
            let after = events::collected(names, roots, queue, path, event_id, flags);
            let control = flags & 0x10 != 0 || flags & 0x02 != 0 || flags & 0x04 != 0 || flags & 0x08
                != 0;
            let seen = names.observed(path);
            let concerned = exists|i: int|
                0 <= i < roots.len() && (paths::path_starts_with(seen, #[trigger] roots[i])
                    || paths::path_starts_with(roots[i], seen));
            let last = after[after.len() - 1];
            &&& control ==> after.len() == queue.len() + 1 && after.take(queue.len() as int)
                == queue && last.flags == flags && last.event_id == event_id && last.path
                == names.observed("/"@)
            &&& !control && !concerned ==> after == queue
            &&& !control && concerned && queue.len() < 65536 ==> after.len() == queue.len() + 1
                && after.take(queue.len() as int) == queue && last.flags == flags && last.event_id
                == event_id && last.path == names.observed(seen)
            &&& !control && concerned && queue.len() >= 65536 && 0 <= root < roots.len() ==> {
                &&& after.len() == roots.len()
                &&& after[root].path == names.observed(roots[root])
                &&& after[root].must_rescan
            }
        }),
{
    assert((flags & 0x10 != 0 || flags & 0x02 != 0 || flags & 0x04 != 0 || flags & 0x08 != 0)
        == (flags & (0x10u32 | 0x0e) != 0)) by (bit_vector);
    let seen = names.observed(path);
    let after = events::collected(names, roots, queue, path, event_id, flags);
    if exists|i: int|
        0 <= i < roots.len() && (paths::path_starts_with(seen, #[trigger] roots[i])
            || paths::path_starts_with(roots[i], seen)) {
        let i = choose|i: int|
            0 <= i < roots.len() && (paths::path_starts_with(seen, #[trigger] roots[i])
                || paths::path_starts_with(roots[i], seen));
        assert(events::on_branch(seen, roots[i]));
    }
    if events::overlaps(seen, roots) {
        let i = choose|i: int| 0 <= i < roots.len() && #[trigger] events::on_branch(seen, roots[i]);
        assert(paths::path_starts_with(seen, roots[i]) || paths::path_starts_with(roots[i], seen));
    }
    assert(forall|one: EventView| #[trigger] queue.push(one).take(queue.len() as int) =~= queue);
    let controls = events::controls_of(queue);
    assert((0x03u32 | controls) & 0xef != 0) by (bit_vector);
}

/// A root is watched at the closest directory at or above it: at itself where it is a directory,
/// and otherwise where its parent is watched.
pub proof fn law_roots_are_watched_at_the_closest_directory(
    root: Seq<char>,
    directory: spec_fn(Seq<char>) -> bool,
)
    ensures
        directory(root) ==> events::watched_at(root, directory) == root,
        !directory(root) ==> match paths::parent_path(root) {
            Some(up) => events::watched_at(root, directory) == events::watched_at(up, directory),
            None => events::watched_at(root, directory) == "/"@,
        },
        directory(events::watched_at(root, directory)) || events::watched_at(root, directory)
            == "/"@,
    decreases root.len(),
{
    reveal_strlit("/");
    paths::lemma_parent_shorter(root);
    let top = "/"@;
    assert(paths::trimmed_end(top, 1, 1) == 1);
    assert(paths::parent_path(top) is None);
    if !directory(root) {
        if let Some(up) = paths::parent_path(root) {
            law_roots_are_watched_at_the_closest_directory(up, directory);
            paths::lemma_parent_shorter(up);
        }
    }
}

/// A path that the host cannot find is gone where the directory above it can be read and belongs to
/// a root, unless it is a root itself; it never is where something stands at it, where it cannot be
/// read, or where nothing was chosen.
pub proof fn law_what_is_gone(
    path: Seq<char>,
    up: Seq<char>,
    roots: Seq<Seq<char>>,
    answer: spec_fn(Seq<char>) -> Presence,
)
    requires
        paths::parent_path(path) == Some(up),
    ensures
        answer(path) == Presence::Missing && answer(up) == Presence::Readable && presence::selected(
            up,
            roots,
        ) && presence::selected(path, roots) && !presence::is_root(path, roots)
            ==> presence::is_missing(path, roots, answer),
        answer(path) != Presence::Missing ==> !presence::is_missing(path, roots, answer),
        answer(up) != Presence::Readable && answer(up) != Presence::Missing
            ==> !presence::is_missing(path, roots, answer),
        !presence::selected(path, roots) || !presence::selected(up, roots)
            ==> !presence::is_missing(path, roots, answer),
        presence::accessible_as(path, answer) == (answer(path) == Presence::Readable || (answer(
            path,
        ) == Presence::Other && answer(up) == Presence::Readable)),
{
}

/// The words of a line of the host's list of links: the name at the root, and the place on the data
/// volume that it leads to.
pub proof fn law_lines_name_links(logical: Seq<char>, target: Seq<char>)
    requires
        paths::has_root(logical),
        target.len() > 0,
        !paths::has_root(target),
        !paths::components(target).contains(".."@),
        forall|i: int|
            0 <= i < logical.len() ==> !lexer::white_space(#[trigger] logical[i]),
        forall|i: int|
            0 <= i < target.len() ==> !lexer::white_space(#[trigger] target[i]),
    ensures
        firmlinks::link_of(logical + seq!['\t'] + target) == Some(
            ("/System/Volumes/Data/"@ + target, logical),
        ),
{
    let line = logical + seq!['\t'] + target;
    let n = logical.len() as int;
    let m = line.len() as int;
    assert forall|i: int| 0 <= i < n implies !lexer::white_space(
        #[trigger] line[i],
    ) by {
        assert(line[i] == logical[i]);
    }
    assert(line[n] == '\t');
    assert forall|i: int| n < i < m implies !lexer::white_space(#[trigger] line[i]) by {
        assert(line[i] == target[i - n - 1]);
    }
    lemma_word_end(line, 0, n);
    lemma_word_end(line, n + 1, m);
    assert(!lexer::white_space(line[0]));
    assert(!lexer::white_space(line[n + 1]));
    assert(firmlinks::white_end(line, 0) == 0);
    assert(firmlinks::white_end(line, n + 1) == n + 1);
    assert(firmlinks::white_end(line, n) == n + 1);
    assert(line.subrange(0, n) =~= logical);
    assert(line.subrange(n + 1, m) =~= target);
    reveal_strlit("/System/Volumes/Data");
    reveal_strlit("/System/Volumes/Data/");
    reveal_strlit("/");
    assert("/System/Volumes/Data"@ + "/"@ =~= "/System/Volumes/Data/"@);
}

proof fn lemma_word_end(line: Seq<char>, from: int, end: int)
    requires
        0 <= from <= end <= line.len(),
        forall|i: int| from <= i < end ==> !lexer::white_space(#[trigger] line[i]),
        end == line.len() || lexer::white_space(line[end]),
    ensures
        firmlinks::word_end(line, from) == end,
    decreases end - from,
{
    if from < end {
        lemma_word_end(line, from + 1, end);
    }
}

/// The scopes of a scan are those that were asked for, lie in a chosen root and belong to its
/// namespace; of a look at single paths the same holds.
pub proof fn law_scopes_are_those_asked_for_and_chosen(
    list: Seq<Seq<char>>,
    roots: Seq<Seq<char>>,
    path: Seq<char>,
)
    ensures
        traversal::authorized(list, roots).contains(path) == (list.contains(path)
            && namespace::covered(roots, path) && namespace::in_namespace(path, roots)),
    decreases list.len(),
{
    if list.len() > 0 {
        let last = list.last();
        law_scopes_are_those_asked_for_and_chosen(list.drop_last(), roots, path);
        let here = plan::one_if(
            last,
            namespace::covered(roots, last) && namespace::in_namespace(last, roots),
        );
        selection::lemma_in_either(traversal::authorized(list.drop_last(), roots), here, path);
        assert(list =~= list.drop_last() + seq![last]);
        selection::lemma_in_either(list.drop_last(), seq![last], path);
        lemma_single(last, path);
        if here.len() > 0 {
            assert(here =~= seq![last]);
        }
    }
}

proof fn lemma_single(one: Seq<char>, path: Seq<char>)
    ensures
        seq![one].contains(path) == (one == path),
        !Seq::<Seq<char>>::empty().contains(path),
{
    assert(seq![one][0] == one);
}

/// A scan begins at the starting points that belong to the namespace, lie on a mount that is
/// indexed and were not left out, and nowhere else.
pub proof fn law_scans_begin_where_they_may(
    starts: Seq<Seq<char>>,
    roots: Seq<Seq<char>>,
    out: Seq<Seq<char>>,
    allowed: spec_fn(Seq<char>) -> bool,
    path: Seq<char>,
)
    ensures
        traversal::entered(starts, roots, out, allowed).contains(path) == (starts.contains(path)
            && namespace::in_namespace(path, roots) && allowed(path) && !traversal::within(
            path,
            out,
        )),
    decreases starts.len(),
{
    if starts.len() > 0 {
        let one = starts.last();
        law_scans_begin_where_they_may(starts.drop_last(), roots, out, allowed, path);
        let here = plan::one_if(
            one,
            namespace::in_namespace(one, roots) && allowed(one) && !traversal::within(one, out),
        );
        selection::lemma_in_either(
            traversal::entered(starts.drop_last(), roots, out, allowed),
            here,
            path,
        );
        assert(starts =~= starts.drop_last() + seq![one]);
        selection::lemma_in_either(starts.drop_last(), seq![one], path);
        lemma_single(one, path);
        if here.len() > 0 {
            assert(here =~= seq![one]);
        }
    }
}

/// What is on the data volume under a name at the root is not scanned a second time there: the
/// target of a verified link is left out exactly if the link's own name lies in what is scanned.
pub proof fn law_linked_directories_are_scanned_once(
    links: Seq<Firmlink>,
    list: Seq<Seq<char>>,
    path: Seq<char>,
)
    ensures
        traversal::twice_named(links, list).contains(path) == (exists|i: int|
            0 <= i < links.len() && (#[trigger] links[i]).physical@ == path && links[i].verified
                && traversal::within(links[i].logical@, list)),
    decreases links.len(),
{
    if links.len() > 0 {
        let last = links.last();
        let init = links.drop_last();
        let n = links.len() - 1;
        law_linked_directories_are_scanned_once(init, list, path);
        let here = plan::one_if(
            last.physical@,
            traversal::within(last.logical@, list) && last.verified,
        );
        selection::lemma_in_either(traversal::twice_named(init, list), here, path);
        lemma_single(last.physical@, path);
        if here.len() > 0 {
            assert(here =~= seq![last.physical@]);
        }
        assert(links[n] == last);
        assert forall|i: int| 0 <= i < n implies #[trigger] init[i] == links[i] by {}
        if exists|i: int|
            0 <= i < init.len() && (#[trigger] init[i]).physical@ == path && init[i].verified
                && traversal::within(init[i].logical@, list) {
            let i = choose|i: int|
                0 <= i < init.len() && (#[trigger] init[i]).physical@ == path && init[i].verified
                    && traversal::within(init[i].logical@, list);
            assert(links[i].physical@ == path);
        }
        if exists|i: int|
            0 <= i < links.len() && (#[trigger] links[i]).physical@ == path && links[i].verified
                && traversal::within(links[i].logical@, list) {
            let i = choose|i: int|
                0 <= i < links.len() && (#[trigger] links[i]).physical@ == path
                    && links[i].verified && traversal::within(links[i].logical@, list);
            if i < n {
                assert(init[i].physical@ == path);
            }
        }
    }
}

/// Directories are enumerated from roots that were asked for, and each of these is one of them or
/// is reached from one of them.
pub proof fn law_every_root_is_enumerated(
    list: Seq<Seq<char>>,
    roots: Seq<Seq<char>>,
    root: Seq<char>,
)
    ensures
        traversal::starting_points(list, roots).contains(root) ==> list.contains(root),
        list.contains(root) ==> exists|i: int|
            0 <= i < traversal::starting_points(list, roots).len() && paths::is_ancestor(
                #[trigger] traversal::starting_points(list, roots)[i],
                root,
            ),
    decreases list.len(),
{
    if list.len() > 0 {
        let (init, last) = (list.drop_last(), list.last());
        let kept = traversal::starting_points(init, roots);
        let all = traversal::starting_points(list, roots);
        law_every_root_is_enumerated(init, roots, root);
        assert(list =~= init + seq![last]);
        selection::lemma_in_either(init, seq![last], root);
        lemma_single(last, root);
        assert(kept.push(last) =~= kept + seq![last]);
        selection::lemma_in_either(kept, seq![last], root);
        assert(forall|i: int| 0 <= i < kept.len() ==> #[trigger] all[i] == kept[i]);
        if list.contains(root) {
            if init.contains(root) {
                let i = choose|i: int|
                    0 <= i < kept.len() && paths::is_ancestor(#[trigger] kept[i], root);
                assert(all[i] == kept[i]);
            } else if exists|i: int|
                0 <= i < kept.len() && traversal::reached_from(#[trigger] kept[i], last, roots) {
                let i = choose|i: int|
                    0 <= i < kept.len() && traversal::reached_from(#[trigger] kept[i], last, roots);
                assert(all[i] == kept[i]);
            } else {
                paths::lemma_root_component(last);
                let parts = paths::components(last);
                assert(parts.subrange(0, parts.len() as int) =~= parts);
                assert(all[kept.len() as int] == last);
            }
        }
    }
}

/// The data volume is entered by itself exactly in a scan of everything, where it is there and the
/// hidden volumes' directory was not chosen.
pub proof fn law_scans_of_everything_enter_the_data_volume(
    list: Seq<Seq<char>>,
    roots: Seq<Seq<char>>,
    present: bool,
)
    requires
        !list.contains("/System/Volumes/Data"@),
    ensures
        traversal::traversal_roots(list, roots, present).contains("/System/Volumes/Data"@) == (
        list.contains("/"@) && present && !roots.contains("/System/Volumes"@)),
{
    let data = "/System/Volumes/Data"@;
    let before = traversal::starting_points(list, roots);
    law_every_root_is_enumerated(list, roots, data);
    let alone = list.contains("/"@) && !namespace::descends("/System/Volumes"@, roots) && present;
    let here = plan::one_if(data, alone);
    selection::lemma_in_either(before, here, data);
    lemma_single(data, data);
    if alone {
        assert(here =~= seq![data]);
    }
}

/// When reports failed, every root is reported as lost behind what was queued before.
pub proof fn law_failed_reports_dirty_every_root(
    names: HostNames,
    roots: Seq<Seq<char>>,
    queue: Seq<EventView>,
    count: nat,
)
    requires
        count <= roots.len(),
    ensures
        ({
            let after = events::all_dirty(names, roots, queue, count);
            &&& after.len() == queue.len() + count
            &&& after.take(queue.len() as int) == queue
            &&& forall|i: int|
                queue.len() <= i < after.len() ==> (#[trigger] after[i]).must_rescan
                    && after[i].flags & 0x02 != 0
        }),
    decreases count,
{
    let after = events::all_dirty(names, roots, queue, count);
    assert(3u32 & (0x10u32 | 0x0e) != 0 && 3u32 & 0xef != 0 && 3u32 & 2 != 0) by (bit_vector);
    if count == 0 {
        assert(after.take(queue.len() as int) =~= queue);
    } else {
        let before = events::all_dirty(names, roots, queue, (count - 1) as nat);
        law_failed_reports_dirty_every_root(names, roots, queue, (count - 1) as nat);
        assert(after.len() == before.len() + 1);
        assert forall|i: int| 0 <= i < before.len() implies #[trigger] after[i] == before[i] by {}
        assert(after.take(queue.len() as int) =~= before.take(queue.len() as int));
        assert forall|i: int| queue.len() <= i < after.len() implies (
        #[trigger] after[i]).must_rescan && after[i].flags & 0x02 != 0 by {
            if i < before.len() {
                assert(after[i] == before[i]);
            }
        }
    }
}

/// The host's list of links gives one for each line that names one, in the order of the lines.
pub proof fn law_each_line_gives_its_link(lines: Seq<Seq<char>>, line: Seq<char>)
    ensures
        firmlinks::links_of(lines.push(line)) == (match firmlinks::link_of(line) {
            Some(link) => firmlinks::links_of(lines).push(link),
            None => firmlinks::links_of(lines),
        }),
        firmlinks::links_of(Seq::empty()) == Seq::<(Seq<char>, Seq<char>)>::empty(),
{
    assert(lines.push(line).drop_last() =~= lines);
}

} // verus!
