//! What has to be looked at again after some events.
//!
//! Events that only touch the metadata of a directory lead to a look at that directory;
//! directories that were created or renamed are scanned with all that is in them. A change of a
//! directory's inode first asks whether its contents are covered and can be read, since every
//! ordinary change of a child touches the times of its directory too.
use crate::paths;
use crate::paths::{parent, starts_with};
use crate::scanner::events;
use crate::scanner::events::{
    ChangeEvent, EventView, EVENT_HISTORY_DONE, GLOBAL_HISTORY_INVALIDATION, INODE_METADATA,
    ITEM_IS_DIR, SUBTREE_CHANGE,
};
use crate::scanner::namespace;
use crate::scanner::namespace::{
    descend_in_namespace, path_in_namespace, HostNames, PathScopes, DATA_ROOT, SYSTEM_VOLUMES,
};
use crate::scanner::selection;
use crate::scanner::selection::normalize_scopes;
use crate::text;
use crate::text::same_text;
use crate::text_order;
use crate::text_order::sort_distinct;
use vstd::prelude::*;

verus! {

/// The paths to scan, to look at, and to check for coverage and access first.
#[derive(Debug, Default, PartialEq)]
pub struct Reconciliation {
    pub recursive: Vec<String>,
    pub metadata: Vec<String>,
    pub directory_checks: Vec<String>,
}

/// Paths to scan, to look at, and to check.
#[verifier::ext_equal]
pub struct Marks {
    pub recursive: Seq<Seq<char>>,
    pub metadata: Seq<Seq<char>>,
    pub checks: Seq<Seq<char>>,
}

impl View for Reconciliation {
    type V = Marks;

    open spec fn view(&self) -> Marks {
        Marks {
            recursive: text::texts(self.recursive@),
            metadata: text::texts(self.metadata@),
            checks: text::texts(self.directory_checks@),
        }
    }
}

pub open spec fn no_marks() -> Marks {
    Marks { recursive: Seq::empty(), metadata: Seq::empty(), checks: Seq::empty() }
}

/// The paths of both.
pub open spec fn joined(a: Marks, b: Marks) -> Marks {
    Marks {
        recursive: a.recursive + b.recursive,
        metadata: a.metadata + b.metadata,
        checks: a.checks + b.checks,
    }
}

/// At most one path.
pub open spec fn one_if(path: Seq<char>, wanted: bool) -> Seq<Seq<char>> {
    if wanted {
        seq![path]
    } else {
        Seq::empty()
    }
}

/// The directory of a changed entry, where it lies in the root: creating, removing or renaming
/// a child changes its directory's times too.
pub open spec fn touched_parent(path: Seq<char>, root: Seq<char>) -> Seq<Seq<char>> {
    match paths::parent_path(path) {
        Some(up) => one_if(up, paths::path_starts_with(up, root)),
        None => Seq::empty(),
    }
}

/// What an event means for a root.
pub open spec fn root_marks(event: EventView, root: Seq<char>) -> Marks {
    let inside = paths::path_starts_with(event.path, root);
    let above = !inside && paths::path_starts_with(root, event.path);
    let subtree = event.flags & SUBTREE_CHANGE != 0;
    let inode = event.flags & INODE_METADATA != 0;
    let directory_only = event.flags & ITEM_IS_DIR != 0 && !subtree;
    if event.must_rescan {
        Marks {
            recursive: one_if(event.path, inside) + one_if(root, above),
            metadata: Seq::empty(),
            checks: Seq::empty(),
        }
    } else {
        Marks {
            recursive: one_if(event.path, inside && !directory_only) + one_if(
                root,
                above && subtree,
            ),
            metadata: if inside {
                touched_parent(event.path, root) + one_if(event.path, directory_only && !inode)
            } else {
                Seq::empty()
            },
            checks: one_if(event.path, inside && directory_only && inode) + one_if(
                root,
                above && !subtree && inode,
            ),
        }
    }
}

/// What an event means for some roots.
pub open spec fn roots_marks(event: EventView, roots: Seq<Seq<char>>) -> Marks
    decreases roots.len(),
{
    if roots.len() == 0 {
        no_marks()
    } else {
        joined(roots_marks(event, roots.drop_last()), root_marks(event, roots.last()))
    }
}

/// A mount that a completed scan has seen already.
pub open spec fn mount_seen(event: EventView, cursor: Option<u64>) -> bool {
    &&& cursor matches Some(anchor)
    &&& event.event_id != 0
    &&& event.event_id <= anchor
    &&& (event.flags == 0x40 || event.flags == 0x80 || event.flags == 0xc0)
}

/// A change of everything in the hidden volumes' directory, where that directory is no choice.
pub open spec fn hidden_change(event: EventView, roots: Seq<Seq<char>>) -> bool {
    &&& event.path == SYSTEM_VOLUMES@
    &&& !namespace::descends(SYSTEM_VOLUMES@, roots)
    &&& (event.must_rescan || event.flags & SUBTREE_CHANGE != 0)
}

/// The roots in the hidden volumes' directory.
pub open spec fn volume_roots(roots: Seq<Seq<char>>) -> Seq<Seq<char>>
    decreases roots.len(),
{
    if roots.len() == 0 {
        roots
    } else {
        volume_roots(roots.drop_last()) + one_if(
            roots.last(),
            paths::path_starts_with(roots.last(), SYSTEM_VOLUMES@),
        )
    }
}

/// The hidden volumes' directory lies in some root.
pub open spec fn holds_volumes(roots: Seq<Seq<char>>) -> bool {
    exists|i: int|
        0 <= i < roots.len() && paths::path_starts_with(SYSTEM_VOLUMES@, #[trigger] roots[i])
}

/// What a change of the hidden volumes' directory means: it grants no access to the volumes in
/// it, but the data volume is part of the default namespace.
pub open spec fn hidden_marks(names: HostNames, event: EventView, roots: Seq<Seq<char>>) -> Marks {
    let held = holds_volumes(roots);
    Marks {
        recursive: (if held && namespace::in_namespace(DATA_ROOT@, roots) {
            selection::scopes_of(names, seq![DATA_ROOT@])
        } else {
            Seq::empty()
        }) + volume_roots(roots),
        metadata: one_if(event.path, held),
        checks: Seq::empty(),
    }
}

/// What an event means.
pub open spec fn event_marks(
    names: HostNames,
    event: EventView,
    roots: Seq<Seq<char>>,
    cursor: Option<u64>,
) -> Marks {
    if event.flags & EVENT_HISTORY_DONE != 0 || mount_seen(event, cursor) {
        no_marks()
    } else if event.flags & GLOBAL_HISTORY_INVALIDATION != 0 {
        Marks { recursive: roots, metadata: Seq::empty(), checks: Seq::empty() }
    } else if !namespace::in_namespace(event.path, roots) {
        no_marks()
    } else if hidden_change(event, roots) {
        hidden_marks(names, event, roots)
    } else {
        roots_marks(event, roots)
    }
}

/// What some events mean.
pub open spec fn events_marks(
    names: HostNames,
    events: Seq<EventView>,
    roots: Seq<Seq<char>>,
    cursor: Option<u64>,
) -> Marks
    decreases events.len(),
{
    if events.len() == 0 {
        no_marks()
    } else {
        joined(
            events_marks(names, events.drop_last(), roots, cursor),
            event_marks(names, events.last(), roots, cursor),
        )
    }
}

/// The paths that no scope covers.
pub open spec fn outside(list: Seq<Seq<char>>, scopes: Seq<Seq<char>>) -> Seq<Seq<char>>
    decreases list.len(),
{
    if list.len() == 0 {
        list
    } else {
        outside(list.drop_last(), scopes) + one_if(
            list.last(),
            !namespace::covered(scopes, list.last()),
        )
    }
}

/// The work that marks come to: what a scan covers is not looked at once more.
pub open spec fn planned(names: HostNames, marks: Marks) -> Marks {
    let recursive = selection::scopes_of(names, marks.recursive);
    Marks {
        recursive,
        metadata: text_order::sorted_distinct(outside(marks.metadata, recursive)),
        checks: text_order::sorted_distinct(outside(marks.checks, recursive)),
    }
}

/// The work that some events make necessary.
pub open spec fn plan_of(
    names: HostNames,
    roots: Seq<Seq<char>>,
    events: Seq<EventView>,
    cursor: Option<u64>,
) -> Marks {
    planned(names, events_marks(names, events, selection::scopes_of(names, roots), cursor))
}

impl Reconciliation {
    fn add_recursive(&mut self, path: &str)
        ensures
            final(self)@ == (Marks { recursive: old(self)@.recursive.push(path@), ..old(self)@ }),
    {
        let ghost before = self@;
        self.recursive.push(path.to_owned());
        assert(self@.recursive =~= before.recursive.push(path@));
    }

    fn add_metadata(&mut self, path: &str)
        ensures
            final(self)@ == (Marks { metadata: old(self)@.metadata.push(path@), ..old(self)@ }),
    {
        let ghost before = self@;
        self.metadata.push(path.to_owned());
        assert(self@.metadata =~= before.metadata.push(path@));
    }

    fn add_check(&mut self, path: &str)
        ensures
            final(self)@ == (Marks { checks: old(self)@.checks.push(path@), ..old(self)@ }),
    {
        let ghost before = self@;
        self.directory_checks.push(path.to_owned());
        assert(self@.checks =~= before.checks.push(path@));
    }

    fn mark_root(&mut self, event: &ChangeEvent, root: &str)
        ensures
            final(self)@ == joined(old(self)@, root_marks(event@, root@)),
    {
        let ghost before = self@;
        let path = event.path.as_str();
        let inside = starts_with(path, root);
        let above = !inside && starts_with(root, path);
        let subtree = event.flags & SUBTREE_CHANGE != 0;
        let inode = event.flags & INODE_METADATA != 0;
        let directory_only = event.flags & ITEM_IS_DIR != 0 && !subtree;
        if event.must_rescan {
            if inside {
                self.add_recursive(path);
            } else if above {
                self.add_recursive(root);
            }
        } else if inside {
            if let Some(up) = parent(path) {
                if starts_with(up.as_str(), root) {
                    self.add_metadata(up.as_str());
                }
            }
            if directory_only {
                if inode {
                    self.add_check(path);
                } else {
                    self.add_metadata(path);
                }
            } else {
                self.add_recursive(path);
            }
        } else if above {
            if subtree {
                self.add_recursive(root);
            } else if inode {
                self.add_check(root);
            }
        }
        proof {
            let want = joined(before, root_marks(event@, root@));
            assert(self@.recursive =~= want.recursive);
            assert(self@.metadata =~= want.metadata);
            assert(self@.checks =~= want.checks);
        }
    }

    fn mark_roots(&mut self, event: &ChangeEvent, roots: &Vec<String>)
        ensures
            final(self)@ == joined(old(self)@, roots_marks(event@, text::texts(roots@))),
    {
        let ghost before = self@;
        let ghost list = text::texts(roots@);
        let mut next: usize = 0;
        assert(self@ =~= joined(before, roots_marks(event@, list.take(0))));
        while next < roots.len()
            invariant
                next <= roots@.len(),
                list == text::texts(roots@),
                self@ == joined(before, roots_marks(event@, list.take(next as int))),
            decreases roots@.len() - next,
        {
            let ghost part = list.take(next + 1);
            assert(part.drop_last() =~= list.take(next as int));
            assert(part.last() == roots@[next as int]@);
            self.mark_root(event, roots[next].as_str());
            next = next + 1;
            assert(self@ =~= joined(before, roots_marks(event@, part)));
        }
        assert(list.take(next as int) =~= list);
    }

    fn mark_all(&mut self, roots: &Vec<String>)
        ensures
            final(self)@ == (Marks {
                recursive: old(self)@.recursive + text::texts(roots@),
                ..old(self)@
            }),
    {
        let ghost before = self@;
        let ghost list = text::texts(roots@);
        let mut next: usize = 0;
        assert(self@.recursive =~= before.recursive + list.take(0));
        while next < roots.len()
            invariant
                next <= roots@.len(),
                list == text::texts(roots@),
                self@.recursive == before.recursive + list.take(next as int),
                self@.metadata == before.metadata,
                self@.checks == before.checks,
            decreases roots@.len() - next,
        {
            self.add_recursive(roots[next].as_str());
            next = next + 1;
            assert(self@.recursive =~= before.recursive + list.take(next as int));
        }
        assert(list.take(next as int) =~= list);
    }

    fn mark_hidden(&mut self, event: &ChangeEvent, roots: &Vec<String>, names: &HostNames)
        ensures
            final(self)@ == joined(
                old(self)@,
                hidden_marks(*names, event@, text::texts(roots@)),
            ),
    {
        let ghost before = self@;
        let ghost list = text::texts(roots@);
        let mut held = false;
        let mut next: usize = 0;
        while next < roots.len() && !held
            invariant
                next <= roots@.len(),
                list == text::texts(roots@),
                held ==> holds_volumes(list),
                !held ==> forall|i: int|
                    0 <= i < next ==> !paths::path_starts_with(
                        SYSTEM_VOLUMES@,
                        #[trigger] list[i],
                    ),
            decreases roots@.len() - next,
        {
            assert(list[next as int] == roots@[next as int]@);
            if starts_with(SYSTEM_VOLUMES, roots[next].as_str()) {
                held = true;
            } else {
                next = next + 1;
            }
            if held {
                next = roots.len();
            }
        }
        assert(held == holds_volumes(list));
        let ghost data = if held && namespace::in_namespace(DATA_ROOT@, list) {
            selection::scopes_of(*names, seq![DATA_ROOT@])
        } else {
            Seq::empty()
        };
        if held {
            self.add_metadata(event.path.as_str());
            if path_in_namespace(DATA_ROOT, roots.as_slice()) {
                let one = vec![DATA_ROOT.to_owned()];
                assert(text::texts(one@) =~= seq![DATA_ROOT@]);
                let scopes = normalize_scopes(one.as_slice(), names);
                self.mark_all(&scopes);
            }
        }
        assert(self@.recursive =~= before.recursive + data);
        let mut next: usize = 0;
        assert(volume_roots(list.take(0)) =~= Seq::<Seq<char>>::empty());
        assert(self@.recursive =~= before.recursive + data + volume_roots(list.take(0)));
        let ghost middle = self@;
        while next < roots.len()
            invariant
                next <= roots@.len(),
                list == text::texts(roots@),
                self@.recursive == before.recursive + data + volume_roots(list.take(next as int)),
                self@.metadata == middle.metadata,
                self@.checks == middle.checks,
            decreases roots@.len() - next,
        {
            let ghost part = list.take(next + 1);
            assert(part.drop_last() =~= list.take(next as int));
            assert(part.last() == roots@[next as int]@);
            if starts_with(roots[next].as_str(), SYSTEM_VOLUMES) {
                self.add_recursive(roots[next].as_str());
            }
            next = next + 1;
            assert(self@.recursive =~= before.recursive + data + volume_roots(part));
        }
        assert(list.take(next as int) =~= list);
        proof {
            let want = joined(before, hidden_marks(*names, event@, list));
            assert(self@.recursive =~= want.recursive);
            assert(self@.metadata =~= want.metadata);
            assert(self@.checks =~= want.checks);
        }
    }

    fn mark_event(
        &mut self,
        event: &ChangeEvent,
        roots: &Vec<String>,
        cursor: Option<u64>,
        names: &HostNames,
    )
        ensures
            final(self)@ == joined(
                old(self)@,
                event_marks(*names, event@, text::texts(roots@), cursor),
            ),
    {
        let ghost before = self@;
        assert(joined(before, no_marks()) =~= before);
        if event.flags & EVENT_HISTORY_DONE != 0 {
            return;
        }
        if let Some(anchor) = cursor {
            if event.event_id != 0 && event.event_id <= anchor && (event.flags == 0x40
                || event.flags == 0x80 || event.flags == 0xc0) {
                return;
            }
        }
        if event.flags & GLOBAL_HISTORY_INVALIDATION != 0 {
            self.mark_all(roots);
            assert(self@ =~= joined(
                before,
                event_marks(*names, event@, text::texts(roots@), cursor),
            ));
            return;
        }
        if !path_in_namespace(event.path.as_str(), roots.as_slice()) {
            return;
        }
        if same_text(event.path.as_str(), SYSTEM_VOLUMES) && !descend_in_namespace(
            SYSTEM_VOLUMES,
            roots.as_slice(),
        ) && (event.must_rescan || event.flags & SUBTREE_CHANGE != 0) {
            self.mark_hidden(event, roots, names);
            return;
        }
        self.mark_roots(event, roots);
    }
}

/// The paths that no scope covers, in order.
fn keep_outside(list: &Vec<String>, scopes: &PathScopes) -> (kept: Vec<String>)
    ensures
        text::texts(kept@) == text_order::sorted_distinct(
            outside(text::texts(list@), scopes@),
        ),
{
    let ghost all = text::texts(list@);
    let mut kept: Vec<String> = Vec::new();
    let mut next: usize = 0;
    assert(text::texts(kept@) =~= outside(all.take(0), scopes@));
    while next < list.len()
        invariant
            next <= list@.len(),
            all == text::texts(list@),
            text::texts(kept@) == outside(all.take(next as int), scopes@),
        decreases list@.len() - next,
    {
        let ghost part = all.take(next + 1);
        let ghost before = text::texts(kept@);
        assert(part.drop_last() =~= all.take(next as int));
        assert(part.last() == list@[next as int]@);
        if !scopes.covers(list[next].as_str()) {
            let copy = list[next].clone();
            kept.push(copy);
            assert(text::texts(kept@) =~= before.push(list@[next as int]@));
        }
        assert(text::texts(kept@) =~= outside(part, scopes@));
        next = next + 1;
    }
    assert(all.take(next as int) =~= all);
    sort_distinct(kept)
}

proof fn lemma_outside(list: Seq<Seq<char>>, a: Seq<Seq<char>>, b: Seq<Seq<char>>)
    requires
        forall|path: Seq<char>| #[trigger] namespace::covered(a, path) == namespace::covered(
            b,
            path,
        ),
    ensures
        outside(list, a) == outside(list, b),
    decreases list.len(),
{
    if list.len() > 0 {
        lemma_outside(list.drop_last(), a, b);
        assert(namespace::covered(a, list.last()) == namespace::covered(b, list.last()));
    }
}

impl Reconciliation {
    fn settle(self, names: &HostNames) -> (plan: Reconciliation)
        ensures
            plan@ == planned(*names, self@),
    {
        let recursive = normalize_scopes(self.recursive.as_slice(), names);
        let scopes = PathScopes::from_paths(recursive.as_slice());
        let metadata = keep_outside(&self.metadata, &scopes);
        let directory_checks = keep_outside(&self.directory_checks, &scopes);
        proof {
            lemma_outside(text::texts(self.metadata@), scopes@, text::texts(recursive@));
            lemma_outside(text::texts(self.directory_checks@), scopes@, text::texts(recursive@));
        }
        Reconciliation { recursive, metadata, directory_checks }
    }
}

pub fn reconciliation_plan(
    roots: &[String],
    changes: &[ChangeEvent],
    names: &HostNames,
) -> (plan: Reconciliation)
    ensures
        plan@ == plan_of(*names, text::texts(roots@), events::event_views(changes@), None),
{
    reconciliation_plan_with_history(roots, changes, None, names)
}

/// The optional cursor is where the stream of a completed scan began, as long as the mounts are
/// still those that it saw. Only pure mount events up to there are redundant; others, mixed
/// ones and those without an identifier count. Callers stop supplying the cursor when history
/// has been replayed.
pub fn reconciliation_plan_with_history(
    roots: &[String],
    changes: &[ChangeEvent],
    completed_mount_cursor: Option<u64>,
    names: &HostNames,
) -> (plan: Reconciliation)
    ensures
        plan@ == plan_of(
            *names,
            text::texts(roots@),
            events::event_views(changes@),
            completed_mount_cursor,
        ),
{
    let configured = normalize_scopes(roots, names);
    let ghost list = text::texts(configured@);
    let ghost views = events::event_views(changes@);
    let mut marks = Reconciliation {
        recursive: Vec::new(),
        metadata: Vec::new(),
        directory_checks: Vec::new(),
    };
    let mut next: usize = 0;
    assert(views.take(0) =~= Seq::<EventView>::empty());
    assert(marks@ =~= no_marks());
    while next < changes.len()
        invariant
            next <= changes@.len(),
            list == text::texts(configured@),
            views == events::event_views(changes@),
            marks@ == events_marks(
                *names,
                views.take(next as int),
                list,
                completed_mount_cursor,
            ),
        decreases changes@.len() - next,
    {
        let ghost part = views.take(next + 1);
        assert(part.drop_last() =~= views.take(next as int));
        assert(part.last() == changes@[next as int]@);
        marks.mark_event(&changes[next], &configured, completed_mount_cursor, names);
        next = next + 1;
    }
    assert(views.take(next as int) =~= views);
    marks.settle(names)
}

/// The paths to scan alone.
pub fn reconciliation_roots(
    roots: &[String],
    changes: &[ChangeEvent],
    names: &HostNames,
) -> (recursive: Vec<String>)
    ensures
        text::texts(recursive@) == plan_of(
            *names,
            text::texts(roots@),
            events::event_views(changes@),
            None,
        ).recursive,
{
    reconciliation_plan(roots, changes, names).recursive
}

/// All the work that an event means for a root lies in that root.
pub proof fn law_work_stays_in_the_root(event: EventView, root: Seq<char>, path: Seq<char>)
    requires
        ({
            let marks = root_marks(event, root);
            marks.recursive.contains(path) || marks.metadata.contains(path)
                || marks.checks.contains(path)
        }),
    ensures
        paths::path_starts_with(path, root),
{
    let all = paths::components(root);
    assert(all.subrange(0, all.len() as int) =~= all);
}

/// No event in a root goes unnoticed: its path is scanned, looked at or checked.
pub proof fn law_no_change_is_lost(event: EventView, root: Seq<char>)
    requires
        paths::path_starts_with(event.path, root),
    ensures
        ({
            let marks = root_marks(event, root);
            marks.recursive.contains(event.path) || marks.metadata.contains(event.path)
                || marks.checks.contains(event.path)
        }),
{
    let marks = root_marks(event, root);
    let subtree = event.flags & SUBTREE_CHANGE != 0;
    let directory_only = event.flags & ITEM_IS_DIR != 0 && !subtree;
    if event.must_rescan || !directory_only {
        assert(marks.recursive[0] == event.path);
    } else if event.flags & INODE_METADATA != 0 {
        assert(marks.checks[0] == event.path);
    } else {
        assert(marks.metadata[marks.metadata.len() - 1] == event.path);
    }
}

/// The end of history alone makes no work.
pub proof fn law_end_of_history_makes_no_work(
    names: HostNames,
    event: EventView,
    roots: Seq<Seq<char>>,
    cursor: Option<u64>,
)
    requires
        event.flags & EVENT_HISTORY_DONE != 0,
    ensures
        event_marks(names, event, roots, cursor) == no_marks(),
{
}

/// Lost history dirties every root, whatever path the event has, unless the event only ends
/// history.
pub proof fn law_lost_history_dirties_every_root(
    names: HostNames,
    event: EventView,
    roots: Seq<Seq<char>>,
    cursor: Option<u64>,
)
    requires
        event.flags & GLOBAL_HISTORY_INVALIDATION != 0,
        event.flags & EVENT_HISTORY_DONE == 0,
    ensures
        event_marks(names, event, roots, cursor).recursive == roots,
{
    let flags = event.flags;
    assert(flags & 0x0e != 0 ==> flags != 0x40 && flags != 0x80 && flags != 0xc0) by (bit_vector);
}

/// What is looked at or checked is not also scanned.
pub proof fn law_nothing_is_looked_at_twice(names: HostNames, marks: Marks, path: Seq<char>)
    requires
        planned(names, marks).metadata.contains(path) || planned(names, marks).checks.contains(
            path,
        ),
    ensures
        !namespace::covered(planned(names, marks).recursive, path),
{
    let scopes = planned(names, marks).recursive;
    text_order::lemma_sorted_exists(outside(marks.metadata, scopes));
    text_order::lemma_sorted_exists(outside(marks.checks, scopes));
    if outside(marks.metadata, scopes).contains(path) {
        lemma_outside_uncovered(marks.metadata, scopes, path);
    } else {
        lemma_outside_uncovered(marks.checks, scopes, path);
    }
}

proof fn lemma_outside_uncovered(list: Seq<Seq<char>>, scopes: Seq<Seq<char>>, path: Seq<char>)
    requires
        outside(list, scopes).contains(path),
    ensures
        !namespace::covered(scopes, path),
    decreases list.len(),
{
    if list.len() > 0 {
        let before = outside(list.drop_last(), scopes);
        let all = outside(list, scopes);
        let i = choose|i: int| 0 <= i < all.len() && all[i] == path;
        if i < before.len() {
            assert(before[i] == path);
            lemma_outside_uncovered(list.drop_last(), scopes, path);
        }
    }
}

/// The lists of a plan are in order without repetition, and nothing that is looked at or
/// checked is or lies in what is scanned.
pub proof fn law_the_work_is_divided(names: HostNames, marks: Marks)
    requires
        selection::lead_to_root(names),
    ensures
        text_order::ascending(planned(names, marks).recursive),
        text_order::ascending(planned(names, marks).metadata),
        text_order::ascending(planned(names, marks).checks),
        forall|path: Seq<char>, scope: Seq<char>|
            (planned(names, marks).metadata.contains(path) || planned(
                names,
                marks,
            ).checks.contains(path)) && planned(names, marks).recursive.contains(scope)
                ==> !#[trigger] paths::path_starts_with(path, scope),
{
    let plan = planned(names, marks);
    let scopes = plan.recursive;
    let spelled = marks.recursive.map_values(|root: Seq<char>| selection::scope_of(names, root));
    namespace::law_compaction_is_idempotent(
        spelled + selection::reached(names.firmlinks@, spelled),
    );
    text_order::lemma_sorted_exists(outside(marks.metadata, scopes));
    text_order::lemma_sorted_exists(outside(marks.checks, scopes));
    assert forall|path: Seq<char>, scope: Seq<char>|
        (plan.metadata.contains(path) || plan.checks.contains(path)) && scopes.contains(
            scope,
        ) implies !#[trigger] paths::path_starts_with(path, scope) by {
        law_nothing_is_looked_at_twice(names, marks, path);
        selection::law_scopes_begin_at_the_root(names, marks.recursive, scope);
        let i = choose|i: int| 0 <= i < scopes.len() && scopes[i] == scope;
        assert(!paths::is_ancestor(scopes[i], path));
    }
}

/// The same paths to scan, to look at and to check, in whatever order and however often.
spec fn marks_the_same(a: Marks, b: Marks) -> bool {
    &&& forall|t: Seq<char>| #[trigger] a.recursive.contains(t) == b.recursive.contains(t)
    &&& forall|t: Seq<char>| #[trigger] a.metadata.contains(t) == b.metadata.contains(t)
    &&& forall|t: Seq<char>| #[trigger] a.checks.contains(t) == b.checks.contains(t)
}

proof fn lemma_outside_has(list: Seq<Seq<char>>, scopes: Seq<Seq<char>>, path: Seq<char>)
    ensures
        outside(list, scopes).contains(path) == (list.contains(path) && !namespace::covered(
            scopes,
            path,
        )),
    decreases list.len(),
{
    if list.len() > 0 {
        let init = list.drop_last();
        lemma_outside_has(init, scopes, path);
        let one = one_if(list.last(), !namespace::covered(scopes, list.last()));
        selection::lemma_in_either(outside(init, scopes), one, path);
        selection::lemma_in_either(init, seq![list.last()], path);
        assert(init + seq![list.last()] =~= list);
        if path == list.last() {
            assert(seq![list.last()][0] == path);
            if !namespace::covered(scopes, path) {
                assert(one[0] == path);
            }
        }
    }
}

proof fn lemma_same_outside(a: Seq<Seq<char>>, b: Seq<Seq<char>>, scopes: Seq<Seq<char>>)
    requires
        forall|t: Seq<char>| #[trigger] a.contains(t) == b.contains(t),
    ensures
        text_order::sorted_distinct(outside(a, scopes)) == text_order::sorted_distinct(
            outside(b, scopes),
        ),
{
    assert forall|t: Seq<char>| #[trigger]
        outside(a, scopes).contains(t) == outside(b, scopes).contains(t) by {
        lemma_outside_has(a, scopes, t);
        lemma_outside_has(b, scopes, t);
        assert(a.contains(t) == b.contains(t));
    }
    text_order::lemma_same_sorted(outside(a, scopes), outside(b, scopes));
}

proof fn lemma_same_plan(names: HostNames, a: Marks, b: Marks)
    requires
        marks_the_same(a, b),
    ensures
        planned(names, a) == planned(names, b),
{
    selection::law_scopes_depend_on_which_roots_there_are(names, a.recursive, b.recursive);
    let scopes = selection::scopes_of(names, a.recursive);
    lemma_same_outside(a.metadata, b.metadata, scopes);
    lemma_same_outside(a.checks, b.checks, scopes);
}

/// Marks hold a path of a kind: to scan, to look at, or to check.
spec fn has_mark(marks: Marks, kind: int, path: Seq<char>) -> bool {
    if kind == 0 {
        marks.recursive.contains(path)
    } else if kind == 1 {
        marks.metadata.contains(path)
    } else {
        marks.checks.contains(path)
    }
}

proof fn lemma_joined_has(a: Marks, b: Marks, kind: int, path: Seq<char>)
    ensures
        has_mark(joined(a, b), kind, path) == (has_mark(a, kind, path) || has_mark(b, kind, path)),
{
    selection::lemma_in_either(a.recursive, b.recursive, path);
    selection::lemma_in_either(a.metadata, b.metadata, path);
    selection::lemma_in_either(a.checks, b.checks, path);
}

/// Some events mark exactly what one of them marks.
proof fn lemma_events_have(
    names: HostNames,
    events: Seq<EventView>,
    roots: Seq<Seq<char>>,
    cursor: Option<u64>,
    kind: int,
    path: Seq<char>,
)
    ensures
        has_mark(events_marks(names, events, roots, cursor), kind, path) == exists|i: int|
            0 <= i < events.len() && has_mark(
                event_marks(names, #[trigger] events[i], roots, cursor),
                kind,
                path,
            ),
    decreases events.len(),
{
    if events.len() > 0 {
        let init = events.drop_last();
        lemma_events_have(names, init, roots, cursor, kind, path);
        lemma_joined_has(
            events_marks(names, init, roots, cursor),
            event_marks(names, events.last(), roots, cursor),
            kind,
            path,
        );
        if exists|i: int|
            0 <= i < init.len() && has_mark(
                event_marks(names, #[trigger] init[i], roots, cursor),
                kind,
                path,
            ) {
            let i = choose|i: int|
                0 <= i < init.len() && has_mark(
                    event_marks(names, #[trigger] init[i], roots, cursor),
                    kind,
                    path,
                );
            assert(events[i] == init[i]);
        }
        if has_mark(event_marks(names, events.last(), roots, cursor), kind, path) {
            assert(events[events.len() - 1] == events.last());
        }
        if exists|i: int|
            0 <= i < events.len() && has_mark(
                event_marks(names, #[trigger] events[i], roots, cursor),
                kind,
                path,
            ) {
            let i = choose|i: int|
                0 <= i < events.len() && has_mark(
                    event_marks(names, #[trigger] events[i], roots, cursor),
                    kind,
                    path,
                );
            if i < init.len() {
                assert(init[i] == events[i]);
            }
        }
    }
}

/// Every event of the first list is in the second, unless it only ends history.
pub open spec fn events_within(a: Seq<EventView>, b: Seq<EventView>) -> bool {
    forall|i: int|
        0 <= i < a.len() ==> (#[trigger] a[i]).flags & EVENT_HISTORY_DONE != 0 || b.contains(a[i])
}

proof fn lemma_events_within(
    names: HostNames,
    a: Seq<EventView>,
    b: Seq<EventView>,
    roots: Seq<Seq<char>>,
    cursor: Option<u64>,
    kind: int,
    path: Seq<char>,
)
    requires
        events_within(a, b),
    ensures
        has_mark(events_marks(names, a, roots, cursor), kind, path) ==> has_mark(
            events_marks(names, b, roots, cursor),
            kind,
            path,
        ),
{
    lemma_events_have(names, a, roots, cursor, kind, path);
    lemma_events_have(names, b, roots, cursor, kind, path);
    if has_mark(events_marks(names, a, roots, cursor), kind, path) {
        let i = choose|i: int|
            0 <= i < a.len() && has_mark(
                event_marks(names, #[trigger] a[i], roots, cursor),
                kind,
                path,
            );
        assert(a[i].flags & EVENT_HISTORY_DONE == 0);
        let j = choose|j: int| 0 <= j < b.len() && b[j] == a[i];
        assert(has_mark(event_marks(names, b[j], roots, cursor), kind, path));
    }
}

/// A plan depends only on which events there are: neither their order, nor how often each comes,
/// nor any events that only end history change it.
pub proof fn law_a_plan_depends_on_which_events_there_are(
    names: HostNames,
    roots: Seq<Seq<char>>,
    a: Seq<EventView>,
    b: Seq<EventView>,
    cursor: Option<u64>,
)
    requires
        events_within(a, b),
        events_within(b, a),
    ensures
        plan_of(names, roots, a, cursor) == plan_of(names, roots, b, cursor),
{
    let scopes = selection::scopes_of(names, roots);
    let (x, y) = (
        events_marks(names, a, scopes, cursor),
        events_marks(names, b, scopes, cursor),
    );
    assert forall|kind: int, path: Seq<char>| #[trigger]
        has_mark(x, kind, path) == has_mark(y, kind, path) by {
        lemma_events_within(names, a, b, scopes, cursor, kind, path);
        lemma_events_within(names, b, a, scopes, cursor, kind, path);
    }
    assert(marks_the_same(x, y)) by {
        assert forall|t: Seq<char>| #[trigger] x.recursive.contains(t) == y.recursive.contains(
            t,
        ) by {
            assert(has_mark(x, 0, t) == has_mark(y, 0, t));
        }
        assert forall|t: Seq<char>| #[trigger] x.metadata.contains(t) == y.metadata.contains(
            t,
        ) by {
            assert(has_mark(x, 1, t) == has_mark(y, 1, t));
        }
        assert forall|t: Seq<char>| #[trigger] x.checks.contains(t) == y.checks.contains(t) by {
            assert(has_mark(x, 2, t) == has_mark(y, 2, t));
        }
    }
    lemma_same_plan(names, x, y);
}

} // verus!
