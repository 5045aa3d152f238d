//! How chosen roots are named, said of the paths as they are given and of what the host answers.
use crate::paths;
use crate::scanner::namespace;
use crate::scanner::namespace::{Alias, Firmlink, HostNames};
use crate::scanner::selection;
use crate::text;
use vstd::prelude::*;

verus! {

/// A path from the top is meant as it is, and another one from the current directory on.
pub proof fn law_relative_roots_begin_at_the_current_directory(names: HostNames, root: Seq<char>)
    ensures
        paths::has_root(root) ==> selection::absolute(names, root) == paths::lexical(root),
        !paths::has_root(root) && names.current_directory@.len() > 0 && !text::ends_in(
            names.current_directory@,
            '/',
        ) ==> selection::absolute(names, root) == paths::lexical(
            names.current_directory@ + seq!['/'] + root,
        ),
{
}

/// A path strictly below a link of the operating system is the path below what the link leads to,
/// as long as no earlier link holds it; the link itself stays what it is.
pub proof fn law_paths_below_links_of_the_system_are_followed(
    aliases: Seq<Alias>,
    path: Seq<char>,
    at: int,
)
    requires
        0 <= at < aliases.len(),
        forall|i: int|
            0 <= i < at ==> !namespace::strictly_below(path, (#[trigger] aliases[i]).logical@),
        namespace::strictly_below(path, aliases[at].logical@),
    ensures
        namespace::dealiased(aliases, path) == namespace::moved(
            path,
            aliases[at].logical@,
            aliases[at].physical@,
        ),
    decreases aliases.len(),
{
    if at > 0 {
        let rest = aliases.drop_first();
        assert(!namespace::strictly_below(path, aliases[0].logical@));
        assert forall|i: int| 0 <= i < at - 1 implies !namespace::strictly_below(
            path,
            (#[trigger] rest[i]).logical@,
        ) by {
            assert(rest[i] == aliases[i + 1]);
        }
        law_paths_below_links_of_the_system_are_followed(rest, path, at - 1);
    }
}

/// A path below no link of the operating system keeps its name.
pub proof fn law_other_paths_are_not_followed(aliases: Seq<Alias>, path: Seq<char>)
    requires
        forall|i: int|
            0 <= i < aliases.len() ==> !namespace::strictly_below(
                path,
                (#[trigger] aliases[i]).logical@,
            ),
    ensures
        namespace::dealiased(aliases, path) == path,
    decreases aliases.len(),
{
    if aliases.len() > 0 {
        let rest = aliases.drop_first();
        assert(!namespace::strictly_below(path, aliases[0].logical@));
        assert forall|i: int| 0 <= i < rest.len() implies !namespace::strictly_below(
            path,
            (#[trigger] rest[i]).logical@,
        ) by {
            assert(rest[i] == aliases[i + 1]);
        }
        law_other_paths_are_not_followed(rest, path);
    }
}

/// A newly chosen root on a mount that is not indexed is kept as it is. Where it is a link itself,
/// its directory is resolved and its own name kept; otherwise it is resolved as far as it exists.
pub proof fn law_chosen_links_are_kept_and_ways_to_them_resolved(
    names: HostNames,
    root: Seq<char>,
    allowed: spec_fn(Seq<char>) -> bool,
    link: spec_fn(Seq<char>) -> bool,
    find: spec_fn(Seq<char>) -> Option<Seq<char>>,
    place: Seq<char>,
    up: Seq<char>,
    name: Seq<char>,
)
    ensures
        ({
            let path = selection::absolute(names, root);
            let seen = namespace::visible(names.firmlinks@, path);
            let said = selection::chosen(names, root, allowed, link, find);
            &&& !allowed(path) ==> said == path
            &&& allowed(path) && !link(seen) && find(seen) == Some(place) ==> said
                == namespace::visible(names.firmlinks@, paths::path_join(place, Seq::empty()))
            &&& allowed(path) && link(seen) && paths::parent_path(seen) == Some(up)
                && selection::file_name(seen) == Some(name) && find(up) == Some(place) ==> said
                == namespace::visible(names.firmlinks@, paths::path_join(place, name))
            &&& allowed(path) && link(seen) && paths::parent_path(seen) == Some(up) && find(up)
                is None ==> said == seen
        }),
{
    let seen = namespace::visible(names.firmlinks@, selection::absolute(names, root));
    let parts = paths::components(seen);
    assert(parts.skip(parts.len() as int) =~= Seq::<Seq<char>>::empty());
}

/// A choice of the data volume's mount point, or of something on it above a verified link's target,
/// takes in what the link names at the root; no other choice does.
pub proof fn law_choices_on_the_data_volume_take_in_what_it_links(
    links: Seq<Firmlink>,
    roots: Seq<Seq<char>>,
    path: Seq<char>,
)
    ensures
        selection::reached(links, roots).contains(path) == (exists|i: int, j: int|
            0 <= i < links.len() && 0 <= j < roots.len() && (#[trigger] links[i]).logical@ == path
                && links[i].verified && ((#[trigger] roots[j]) == "/System/Volumes"@ || (
            paths::path_starts_with(roots[j], "/System/Volumes/Data"@) && paths::path_starts_with(
                links[i].physical@,
                roots[j],
            )))),
    decreases links.len(),
{
    if links.len() > 0 {
        let init = links.drop_last();
        let last = links.last();
        let n = links.len() - 1;
        assert(links[n] == last);
        assert forall|i: int| 0 <= i < n implies #[trigger] init[i] == links[i] by {}
        law_choices_on_the_data_volume_take_in_what_it_links(init, roots, path);
        let before = selection::reached(init, roots);
        let all = selection::reached(links, roots);
        assert(before.push(last.logical@) =~= before + seq![last.logical@]);
        selection::lemma_in_either(before, seq![last.logical@], path);
        assert(seq![last.logical@].contains(path) == (last.logical@ == path)) by {
            assert(seq![last.logical@][0] == last.logical@);
        }
        if before.contains(path) {
            let (i, j) = choose|i: int, j: int|
                0 <= i < init.len() && 0 <= j < roots.len() && (#[trigger] init[i]).logical@ == path
                    && init[i].verified && ((#[trigger] roots[j]) == "/System/Volumes"@ || (
                paths::path_starts_with(roots[j], "/System/Volumes/Data"@)
                    && paths::path_starts_with(init[i].physical@, roots[j])));
            assert(links[i] == init[i]);
        }
        if last.verified && exists|j: int|
            0 <= j < roots.len() && #[trigger] selection::reaches(roots[j], last.physical@) {
            let j = choose|j: int|
                0 <= j < roots.len() && #[trigger] selection::reaches(roots[j], last.physical@);
            assert(links[n].logical@ == last.logical@);
            assert(roots[j] == roots[j]);
        }
        if exists|i: int, j: int|
            0 <= i < links.len() && 0 <= j < roots.len() && (#[trigger] links[i]).logical@ == path
                && links[i].verified && ((#[trigger] roots[j]) == "/System/Volumes"@ || (
            paths::path_starts_with(roots[j], "/System/Volumes/Data"@) && paths::path_starts_with(
                links[i].physical@,
                roots[j],
            ))) {
            let (i, j) = choose|i: int, j: int|
                0 <= i < links.len() && 0 <= j < roots.len() && (#[trigger] links[i]).logical@
                    == path && links[i].verified && ((#[trigger] roots[j]) == "/System/Volumes"@ || (
                paths::path_starts_with(roots[j], "/System/Volumes/Data"@)
                    && paths::path_starts_with(links[i].physical@, roots[j])));
            assert(selection::reaches(roots[j], links[i].physical@));
            if i < n {
                assert(init[i] == links[i]);
            }
        }
    }
}

} // verus!
