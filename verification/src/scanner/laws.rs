//! What scans and change events come to, said of what the host reports: its flags bit by bit,
//! its paths and its times.
use crate::paths;
use crate::scanner::entry;
use crate::scanner::entry::{FileKind, FileMetadata, ScannedFile};
use crate::scanner::events;
use crate::scanner::events::EventView;
use crate::scanner::namespace;
use crate::scanner::namespace::HostNames;
use crate::scanner::plan;
use crate::scanner::plan::{Marks, Reconciliation};
use crate::scanner::selection;
use crate::text;
use crate::text_order;
use vstd::prelude::*;

verus! {

/// The host reports that an entry was created, removed or renamed, or that its owner or its
/// extended attributes changed.
pub open spec fn changes_tree(flags: u32) -> bool {
    ||| flags & 0x100 != 0
    ||| flags & 0x200 != 0
    ||| flags & 0x800 != 0
    ||| flags & 0x4000 != 0
    ||| flags & 0x8000 != 0
}

/// The host reports that the changed entry is a directory.
pub open spec fn of_directory(flags: u32) -> bool {
    flags & 0x20000 != 0
}

/// The host reports a change of the inode's metadata.
pub open spec fn of_inode(flags: u32) -> bool {
    flags & 0x400 != 0
}

/// The host reports that events were dropped or merged, that their identifiers wrapped, that the
/// watched root changed, or that a volume was mounted or unmounted.
pub open spec fn lost_track(flags: u32) -> bool {
    ||| flags & 0x01 != 0
    ||| flags & 0x02 != 0
    ||| flags & 0x04 != 0
    ||| flags & 0x08 != 0
    ||| flags & 0x20 != 0
    ||| flags & 0x40 != 0
    ||| flags & 0x80 != 0
}

/// The host reports only that a volume was mounted, unmounted, or both.
pub open spec fn only_mounts(flags: u32) -> bool {
    flags == 0x40 || flags == 0x80 || flags == 0xc0
}

proof fn lemma_flags(flags: u32)
    ensures
        changes_tree(flags) == (flags & events::SUBTREE_CHANGE != 0),
        of_directory(flags) == (flags & events::ITEM_IS_DIR != 0),
        of_inode(flags) == (flags & events::INODE_METADATA != 0),
        lost_track(flags) == (flags & events::MUST_RESCAN != 0),
        only_mounts(flags) ==> !changes_tree(flags) && flags & 0x0e == 0,
        only_mounts(flags) ==> lost_track(flags),
        flags & 0x0e != 0 ==> lost_track(flags),
{
    assert((flags & 0x100 != 0 || flags & 0x200 != 0 || flags & 0x800 != 0 || flags & 0x4000 != 0
        || flags & 0x8000 != 0) == (flags & 0xcb00 != 0)) by (bit_vector);
    assert((flags & 0x01 != 0 || flags & 0x02 != 0 || flags & 0x04 != 0 || flags & 0x08 != 0
        || flags & 0x20 != 0 || flags & 0x40 != 0 || flags & 0x80 != 0) == (flags & 0xef != 0))
        by (bit_vector);
    assert(flags == 0x40 || flags == 0x80 || flags == 0xc0 ==> flags & 0xcb00 == 0 && flags & 0x0e
        == 0 && flags & 0xef != 0) by (bit_vector);
    assert(flags & 0x0e != 0 ==> flags & 0xef != 0) by (bit_vector);
}

/// An event keeps the identifier and the flags that the host reports. It calls for a scan exactly
/// if the host lost track of what changed, and says that a root changed exactly if the host
/// reports that or a mount.
pub proof fn law_events_say_what_the_host_reports(
    names: HostNames,
    path: Seq<char>,
    event_id: u64,
    flags: u32,
)
    ensures
        ({
            let event = events::event_of(names, path, event_id, flags);
            &&& event.path == names.observed(path)
            &&& event.event_id == event_id
            &&& event.flags == flags
            &&& event.must_rescan == lost_track(flags)
            &&& event.root_changed == (flags & 0x20 != 0 || flags & 0x40 != 0 || flags & 0x80 != 0)
        }),
{
    lemma_flags(flags);
    assert((flags & 0x20 != 0 || flags & 0x40 != 0 || flags & 0x80 != 0) == (flags & 0xe0 != 0))
        by (bit_vector);
}

/// Whatever was created, removed or renamed in a root, or changed its owner or attributes, is
/// scanned with all that is in it, whether it is a directory or not. So is everything that is no
/// directory, and everything of which the host lost track.
pub proof fn law_changed_trees_are_scanned(event: EventView, root: Seq<char>)
    requires
        paths::path_starts_with(event.path, root),
        changes_tree(event.flags) || !of_directory(event.flags) || event.must_rescan,
    ensures
        plan::root_marks(event, root).recursive.contains(event.path),
{
    lemma_flags(event.flags);
    assert(plan::root_marks(event, root).recursive[0] == event.path);
}

/// A directory of which nothing but its own metadata changed is not scanned: it is checked first
/// where its inode changed, and otherwise looked at.
pub proof fn law_directory_metadata_is_looked_at(event: EventView, root: Seq<char>)
    requires
        paths::path_starts_with(event.path, root),
        of_directory(event.flags),
        !changes_tree(event.flags),
        !event.must_rescan,
    ensures
        ({
            let marks = plan::root_marks(event, root);
            &&& marks.recursive == Seq::<Seq<char>>::empty()
            &&& of_inode(event.flags) ==> marks.checks.contains(event.path)
            &&& !of_inode(event.flags) ==> marks.metadata.contains(event.path)
            &&& !of_inode(event.flags) ==> marks.checks == Seq::<Seq<char>>::empty()
        }),
{
    lemma_flags(event.flags);
    let marks = plan::root_marks(event, root);
    if of_inode(event.flags) {
        assert(marks.checks[0] == event.path);
    } else {
        assert(marks.metadata[marks.metadata.len() - 1] == event.path);
    }
}

/// The directory that a changed entry stands in is looked at too, as long as it lies in the root.
pub proof fn law_the_parent_is_looked_at(event: EventView, root: Seq<char>, up: Seq<char>)
    requires
        paths::path_starts_with(event.path, root),
        paths::parent_path(event.path) == Some(up),
        paths::path_starts_with(up, root),
        !event.must_rescan,
    ensures
        plan::root_marks(event, root).metadata.contains(up),
{
    assert(plan::root_marks(event, root).metadata[0] == up);
}

/// A change above a root reaches the root: it is scanned where a tree changed or the host lost
/// track, checked where only an inode changed, and left alone otherwise.
pub proof fn law_changes_above_reach_the_root(event: EventView, root: Seq<char>)
    requires
        paths::path_starts_with(root, event.path),
        !paths::path_starts_with(event.path, root),
    ensures
        ({
            let marks = plan::root_marks(event, root);
            let tree = changes_tree(event.flags) || event.must_rescan;
            &&& tree ==> marks.recursive == seq![root] && marks.checks.len() == 0
            &&& !tree && of_inode(event.flags) ==> marks.recursive.len() == 0 && marks.checks
                == seq![root]
            &&& !tree && !of_inode(event.flags) ==> marks.recursive.len() == 0
                && marks.checks.len() == 0
            &&& marks.metadata.len() == 0
        }),
{
    lemma_flags(event.flags);
    let marks = plan::root_marks(event, root);
    assert(Seq::<Seq<char>>::empty() + seq![root] =~= seq![root]);
}

/// A change beside a root means nothing for it.
pub proof fn law_changes_beside_mean_nothing(event: EventView, root: Seq<char>)
    requires
        !paths::path_starts_with(root, event.path),
        !paths::path_starts_with(event.path, root),
    ensures
        ({
            let marks = plan::root_marks(event, root);
            marks.recursive.len() == 0 && marks.metadata.len() == 0 && marks.checks.len() == 0
        }),
{
}

proof fn lemma_either(a: Seq<Seq<char>>, b: Seq<Seq<char>>, path: Seq<char>)
    ensures
        (a + b).contains(path) == (a.contains(path) || b.contains(path)),
{
    if a.contains(path) {
        let i = choose|i: int| 0 <= i < a.len() && a[i] == path;
        assert((a + b)[i] == path);
    }
    if b.contains(path) {
        let i = choose|i: int| 0 <= i < b.len() && b[i] == path;
        assert((a + b)[a.len() + i] == path);
    }
}

/// Everything in some marks is in others too.
spec fn within(some: Marks, all: Marks) -> bool {
    &&& forall|t: Seq<char>| #[trigger] some.recursive.contains(t) ==> all.recursive.contains(t)
    &&& forall|t: Seq<char>| #[trigger] some.metadata.contains(t) ==> all.metadata.contains(t)
    &&& forall|t: Seq<char>| #[trigger] some.checks.contains(t) ==> all.checks.contains(t)
}

proof fn lemma_joined(a: Marks, b: Marks)
    ensures
        within(a, plan::joined(a, b)),
        within(b, plan::joined(a, b)),
{
    assert forall|t: Seq<char>| #[trigger]
        plan::joined(a, b).recursive.contains(t) == (a.recursive.contains(t)
            || b.recursive.contains(t)) by {
        lemma_either(a.recursive, b.recursive, t);
    }
    assert forall|t: Seq<char>| #[trigger]
        plan::joined(a, b).metadata.contains(t) == (a.metadata.contains(t)
            || b.metadata.contains(t)) by {
        lemma_either(a.metadata, b.metadata, t);
    }
    assert forall|t: Seq<char>| #[trigger]
        plan::joined(a, b).checks.contains(t) == (a.checks.contains(t) || b.checks.contains(t)) by {
        lemma_either(a.checks, b.checks, t);
    }
}

/// What an event means for one of some roots is part of what it means for them all.
proof fn lemma_each_root(event: EventView, roots: Seq<Seq<char>>, i: int)
    requires
        0 <= i < roots.len(),
    ensures
        within(plan::root_marks(event, roots[i]), plan::roots_marks(event, roots)),
    decreases roots.len(),
{
    let before = plan::roots_marks(event, roots.drop_last());
    lemma_joined(before, plan::root_marks(event, roots.last()));
    if i < roots.len() - 1 {
        lemma_each_root(event, roots.drop_last(), i);
    }
}

/// What one of some events means is part of what they all mean.
proof fn lemma_each_event(
    names: HostNames,
    list: Seq<EventView>,
    roots: Seq<Seq<char>>,
    cursor: Option<u64>,
    i: int,
)
    requires
        0 <= i < list.len(),
    ensures
        within(
            plan::event_marks(names, list[i], roots, cursor),
            plan::events_marks(names, list, roots, cursor),
        ),
    decreases list.len(),
{
    let before = plan::events_marks(names, list.drop_last(), roots, cursor);
    lemma_joined(before, plan::event_marks(names, list.last(), roots, cursor));
    if i < list.len() - 1 {
        lemma_each_event(names, list.drop_last(), roots, cursor, i);
    }
}

proof fn lemma_outside(list: Seq<Seq<char>>, scopes: Seq<Seq<char>>, path: Seq<char>)
    requires
        list.contains(path),
        !namespace::covered(scopes, path),
    ensures
        plan::outside(list, scopes).contains(path),
    decreases list.len(),
{
    let i = choose|i: int| 0 <= i < list.len() && list[i] == path;
    let before = plan::outside(list.drop_last(), scopes);
    let here = plan::one_if(list.last(), !namespace::covered(scopes, list.last()));
    lemma_either(before, here, path);
    if i < list.len() - 1 {
        assert(list.drop_last()[i] == path);
        lemma_outside(list.drop_last(), scopes, path);
    } else {
        assert(here[0] == path);
    }
}

/// A plan leaves out no marked path: a scan covers it, or it is still to be looked at or checked.
pub proof fn law_plans_keep_every_mark(names: HostNames, marks: Marks, path: Seq<char>)
    ensures
        ({
            let work = plan::planned(names, marks);
            &&& marks.recursive.contains(path) ==> namespace::covered(
                work.recursive,
                selection::scope_of(names, path),
            )
            &&& marks.metadata.contains(path) ==> namespace::covered(work.recursive, path)
                || work.metadata.contains(path)
            &&& marks.checks.contains(path) ==> namespace::covered(work.recursive, path)
                || work.checks.contains(path)
        }),
{
    let work = plan::planned(names, marks);
    let scopes = work.recursive;
    if marks.recursive.contains(path) {
        let i = choose|i: int| 0 <= i < marks.recursive.len() && marks.recursive[i] == path;
        let mapped = marks.recursive.map_values(
            |root: Seq<char>| selection::scope_of(names, root),
        );
        let all = mapped + selection::reached(names.firmlinks@, mapped);
        let scope = selection::scope_of(names, path);
        assert(mapped[i] == scope);
        assert(all[i] == scope);
        paths::law_lexical_paths_are_normal(path);
        lemma_own_ancestor(scope);
        assert(namespace::covered(all, scope));
        namespace::law_compaction_keeps_coverage(all);
    }
    if marks.metadata.contains(path) && !namespace::covered(scopes, path) {
        lemma_outside(marks.metadata, scopes, path);
        text_order::lemma_sorted_exists(plan::outside(marks.metadata, scopes));
    }
    if marks.checks.contains(path) && !namespace::covered(scopes, path) {
        lemma_outside(marks.checks, scopes, path);
        text_order::lemma_sorted_exists(plan::outside(marks.checks, scopes));
    }
}

proof fn lemma_own_ancestor(path: Seq<char>)
    ensures
        paths::is_ancestor(path, path),
{
    paths::lemma_root_component(path);
    let all = paths::components(path);
    assert(all.subrange(0, all.len() as int) =~= all);
}

/// Of each event in a root a plan has what it calls for: a changed tree is scanned; a directory
/// of which only metadata changed is looked at or, where its inode changed, checked, unless a
/// scan covers it; and so is the directory that the changed entry stands in. Only the end of
/// history, lost history, repeated mounts and the hidden volumes' directory are other matters.
pub proof fn law_plans_answer_each_event(
    work: Reconciliation,
    names: HostNames,
    roots: Seq<Seq<char>>,
    list: Seq<EventView>,
    cursor: Option<u64>,
    event: EventView,
    root: Seq<char>,
)
    requires
        work@ == plan::plan_of(names, roots, list, cursor),
        list.contains(event),
        selection::scopes_of(names, roots).contains(root),
        paths::path_starts_with(event.path, root),
        namespace::in_namespace(event.path, selection::scopes_of(names, roots)),
        event.path != "/System/Volumes"@,
        event.flags & 0x10 == 0,
        event.flags & 0x0e == 0,
        !only_mounts(event.flags),
    ensures
        ({
            let tree = changes_tree(event.flags) || !of_directory(event.flags)
                || event.must_rescan;
            let scanned = text::texts(work.recursive@);
            let looked_at = text::texts(work.metadata@);
            let checked = text::texts(work.directory_checks@);
            &&& tree ==> namespace::covered(scanned, selection::scope_of(names, event.path))
            &&& !tree && of_inode(event.flags) ==> namespace::covered(scanned, event.path)
                || checked.contains(event.path)
            &&& !tree && !of_inode(event.flags) ==> namespace::covered(scanned, event.path)
                || looked_at.contains(event.path)
            &&& !event.must_rescan ==> match paths::parent_path(event.path) {
                Some(up) => paths::path_starts_with(up, root) ==> namespace::covered(scanned, up)
                    || looked_at.contains(up),
                None => true,
            }
        }),
{
    let scopes = selection::scopes_of(names, roots);
    let i = choose|i: int| 0 <= i < list.len() && list[i] == event;
    let j = choose|j: int| 0 <= j < scopes.len() && scopes[j] == root;
    let marks = plan::events_marks(names, list, scopes, cursor);
    lemma_each_event(names, list, scopes, cursor, i);
    lemma_each_root(event, scopes, j);
    lemma_flags(event.flags);
    law_plans_keep_every_mark(names, marks, event.path);
    if changes_tree(event.flags) || !of_directory(event.flags) || event.must_rescan {
        law_changed_trees_are_scanned(event, root);
    } else {
        law_directory_metadata_is_looked_at(event, root);
    }
    if let Some(up) = paths::parent_path(event.path) {
        law_plans_keep_every_mark(names, marks, up);
        if !event.must_rescan && paths::path_starts_with(up, root) {
            law_the_parent_is_looked_at(event, root, up);
        }
    }
}

/// A plan scans every root again after lost history: where the host dropped events of its own or
/// of the user's queue, or the identifiers wrapped.
pub proof fn law_plans_after_lost_history_scan_every_root(
    work: Reconciliation,
    names: HostNames,
    roots: Seq<Seq<char>>,
    list: Seq<EventView>,
    cursor: Option<u64>,
    event: EventView,
    root: Seq<char>,
)
    requires
        work@ == plan::plan_of(names, roots, list, cursor),
        list.contains(event),
        selection::scopes_of(names, roots).contains(root),
        event.flags & 0x10 == 0,
        event.flags & 0x02 != 0 || event.flags & 0x04 != 0 || event.flags & 0x08 != 0,
    ensures
        namespace::covered(text::texts(work.recursive@), selection::scope_of(names, root)),
{
    let scopes = selection::scopes_of(names, roots);
    let i = choose|i: int| 0 <= i < list.len() && list[i] == event;
    let flags = event.flags;
    assert(flags & 0x02 != 0 || flags & 0x04 != 0 || flags & 0x08 != 0 ==> flags & 0x0e != 0)
        by (bit_vector);
    lemma_flags(flags);
    lemma_each_event(names, list, scopes, cursor, i);
    let marks = plan::events_marks(names, list, scopes, cursor);
    assert(plan::event_marks(names, event, scopes, cursor).recursive.contains(root));
    assert(marks.recursive.contains(root));
    law_plans_keep_every_mark(names, marks, root);
}

/// Mounts that a completed scan saw make no work, and only those: a report of anything else, one
/// without an identifier, one from after that scan and any report where no scan was completed
/// still counts.
pub proof fn law_only_seen_mounts_are_skipped(
    names: HostNames,
    event: EventView,
    roots: Seq<Seq<char>>,
    cursor: Option<u64>,
    root: Seq<char>,
)
    requires
        roots.contains(root),
        paths::path_starts_with(event.path, root),
        namespace::in_namespace(event.path, roots),
        event.path != "/System/Volumes"@,
        event.flags & 0x10 == 0,
        event.flags & 0x0e == 0,
        event.must_rescan == lost_track(event.flags),
    ensures
        ({
            let marks = plan::event_marks(names, event, roots, cursor);
            let seen = cursor is Some && event.event_id <= cursor->0;
            &&& only_mounts(event.flags) && event.event_id != 0 && seen ==> marks.recursive.len()
                == 0 && marks.metadata.len() == 0 && marks.checks.len() == 0
            &&& only_mounts(event.flags) && (event.event_id == 0 || !seen)
                ==> marks.recursive.contains(event.path)
        }),
{
    let j = choose|j: int| 0 <= j < roots.len() && roots[j] == root;
    lemma_flags(event.flags);
    lemma_each_root(event, roots, j);
    if only_mounts(event.flags) {
        law_changed_trees_are_scanned(event, root);
    }
}

/// Without the cursor of a completed scan no mount is taken as seen: a report of one in a root has
/// what it concerns scanned again.
pub proof fn law_plans_without_a_cursor_count_every_mount(
    work: Reconciliation,
    names: HostNames,
    roots: Seq<Seq<char>>,
    list: Seq<EventView>,
    event: EventView,
    root: Seq<char>,
)
    requires
        work@ == plan::plan_of(names, roots, list, None),
        list.contains(event),
        selection::scopes_of(names, roots).contains(root),
        paths::path_starts_with(event.path, root),
        namespace::in_namespace(event.path, selection::scopes_of(names, roots)),
        event.path != "/System/Volumes"@,
        only_mounts(event.flags),
        event.must_rescan,
    ensures
        namespace::covered(
            text::texts(work.recursive@),
            selection::scope_of(names, event.path),
        ),
{
    let scopes = selection::scopes_of(names, roots);
    let i = choose|i: int| 0 <= i < list.len() && list[i] == event;
    let flags = event.flags;
    lemma_flags(flags);
    assert(flags == 0x40 || flags == 0x80 || flags == 0xc0 ==> flags & 0x10 == 0) by (bit_vector);
    law_only_seen_mounts_are_skipped(names, event, scopes, None, root);
    lemma_each_event(names, list, scopes, None, i);
    law_plans_keep_every_mark(
        names,
        plan::events_marks(names, list, scopes, None),
        event.path,
    );
}

proof fn lemma_volume_root(roots: Seq<Seq<char>>, root: Seq<char>)
    ensures
        plan::volume_roots(roots).contains(root) == (roots.contains(root)
            && paths::path_starts_with(root, "/System/Volumes"@)),
    decreases roots.len(),
{
    if roots.len() > 0 {
        let before = plan::volume_roots(roots.drop_last());
        let last = roots.last();
        let here = plan::one_if(last, paths::path_starts_with(last, "/System/Volumes"@));
        lemma_volume_root(roots.drop_last(), root);
        lemma_either(before, here, root);
        assert(roots =~= roots.drop_last() + seq![last]);
        lemma_either(roots.drop_last(), seq![last], root);
        assert(seq![last].contains(root) == (last == root)) by {
            assert(seq![last][0] == last);
        }
        assert(here.contains(root) == (last == root && paths::path_starts_with(
            last,
            "/System/Volumes"@,
        ))) by {
            if paths::path_starts_with(last, "/System/Volumes"@) {
                assert(here[0] == last);
            }
        }
    }
}

/// A change of the hidden volumes' directory, where that directory itself was not chosen, scans
/// the volumes in it that were chosen and the data volume of an index of everything; it opens no
/// other volume, and the directory itself is only looked at.
pub proof fn law_hidden_volumes_stay_hidden(
    names: HostNames,
    event: EventView,
    roots: Seq<Seq<char>>,
    cursor: Option<u64>,
    path: Seq<char>,
)
    requires
        event.path == "/System/Volumes"@,
        !roots.contains("/System/Volumes"@),
        changes_tree(event.flags) || event.must_rescan,
        event.flags & 0x10 == 0,
        event.flags & 0x0e == 0,
        !only_mounts(event.flags) || event.event_id == 0,
    ensures
        ({
            let marks = plan::event_marks(names, event, roots, cursor);
            let data = selection::scopes_of(names, seq!["/System/Volumes/Data"@]);
            &&& roots.contains(path) && paths::path_starts_with(path, "/System/Volumes"@)
                ==> marks.recursive.contains(path)
            &&& roots.contains("/"@) && data.contains(path) ==> marks.recursive.contains(path)
            &&& marks.recursive.contains(path) ==> data.contains(path) || (roots.contains(path)
                && paths::path_starts_with(path, "/System/Volumes"@))
            &&& marks.metadata.contains(path) ==> path == "/System/Volumes"@
            &&& roots.contains("/"@) ==> marks.metadata.contains("/System/Volumes"@)
            &&& marks.checks.len() == 0
        }),
{
    lemma_flags(event.flags);
    lemma_volume_root(roots, path);
    let marks = plan::event_marks(names, event, roots, cursor);
    let data = selection::scopes_of(names, seq!["/System/Volumes/Data"@]);
    assert(plan::hidden_change(event, roots));
    assert(marks == plan::hidden_marks(names, event, roots));
    let held = plan::holds_volumes(roots);
    let first = if held && namespace::in_namespace("/System/Volumes/Data"@, roots) {
        data
    } else {
        Seq::empty()
    };
    lemma_either(first, plan::volume_roots(roots), path);
    if roots.contains("/"@) {
        let i = choose|i: int| 0 <= i < roots.len() && roots[i] == "/"@;
        lemma_top();
        assert(paths::path_starts_with("/System/Volumes"@, roots[i]));
        lemma_own_ancestor("/System/Volumes/Data"@);
        assert(marks.metadata[0] == "/System/Volumes"@);
    }
}

proof fn lemma_top()
    ensures
        paths::path_starts_with("/System/Volumes"@, "/"@),
{
    reveal_strlit("/");
    reveal_strlit("/System/Volumes");
    let (top, volumes) = ("/"@, "/System/Volumes"@);
    paths::lemma_root_component(volumes);
    paths::lemma_root_component(top);
    paths::law_parent_components(top);
    let all = paths::components(volumes);
    assert(paths::trimmed_end(top, 1, 1) == 1);
    assert(paths::parent_path(top) is None);
    assert(all.subrange(0, 1) =~= paths::components(top));
}

/// A scanned entry has each of the host's values under its own name, whatever the others are: its
/// size, its times, its flags, its identifiers and its links. It is a directory or a link exactly
/// if the host says so, and its path is the one that was asked for.
pub proof fn law_entries_keep_what_the_host_reports(
    found: ScannedFile,
    path: Seq<char>,
    metadata: FileMetadata,
)
    requires
        found@ == entry::entry_of(path, metadata),
    ensures
        found.path@ == path,
        found.size == metadata.size,
        found.modified == metadata.modified,
        found.changed == metadata.changed,
        found.created == metadata.created,
        found.modified_ns == metadata.modified_ns,
        found.changed_ns == metadata.changed_ns,
        found.flags == metadata.flags,
        found.file_id == metadata.file_id,
        found.parent_id == metadata.parent_id,
        found.volume_id@ == metadata.volume_id@,
        found.link_count == metadata.link_count,
        found.is_dir == (metadata.kind == FileKind::Directory),
        found.is_symlink == (metadata.kind == FileKind::Symlink),
{
    assert(found@.path == path);
}

} // verus!
