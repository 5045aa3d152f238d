//! Change events and the work that they make necessary.
//!
//! An event marks paths as dirty and never says what has become of them. The path of an event
//! is the changed entry itself: going up to its parent and scanning that recursively would turn
//! a small change into a scan of everything.
use crate::paths;
use crate::paths::{parent, starts_with};
use crate::scanner::namespace;
use crate::scanner::namespace::HostNames;
use crate::scanner::selection;
use crate::scanner::selection::normalize_scopes;
use crate::text;
use crate::text_order;
use vstd::prelude::*;

verus! {

/// The identifiers of events started anew.
pub const EVENT_IDS_WRAPPED: u32 = 0x08;

/// All events from before the stream began have been delivered.
pub const EVENT_HISTORY_DONE: u32 = 0x10;

/// Events were dropped, or their identifiers started anew.
pub const GLOBAL_HISTORY_INVALIDATION: u32 = 0x0e;

/// The changed entry is a directory.
pub const ITEM_IS_DIR: u32 = 0x20000;

/// An entry was created, removed or renamed, or changed its owner or attributes.
pub const SUBTREE_CHANGE: u32 = 0xcb00;

/// The metadata of an inode changed.
pub const INODE_METADATA: u32 = 0x400;

/// Flags after which the events alone no longer tell what changed.
pub const MUST_RESCAN: u32 = 0xef;

/// Flags of a root or mount that came, went or was replaced.
pub const ROOT_CHANGED: u32 = 0xe0;

/// More events than this are not kept one by one.
pub const MAX_QUEUED_EVENTS: usize = 65_536;

#[derive(Clone, Debug, Default)]
pub struct ChangeEvent {
    pub path: String,
    pub event_id: u64,
    pub flags: u32,
    pub must_rescan: bool,
    pub root_changed: bool,
}

/// What an event says.
pub struct EventView {
    pub path: Seq<char>,
    pub event_id: u64,
    pub flags: u32,
    pub must_rescan: bool,
    pub root_changed: bool,
}

impl View for ChangeEvent {
    type V = EventView;

    open spec fn view(&self) -> EventView {
        EventView {
            path: self.path@,
            event_id: self.event_id,
            flags: self.flags,
            must_rescan: self.must_rescan,
            root_changed: self.root_changed,
        }
    }
}

/// What some events say.
pub open spec fn event_views(events: Seq<ChangeEvent>) -> Seq<EventView> {
    events.map_values(|event: ChangeEvent| event@)
}

/// The event that the host reports with these flags.
pub open spec fn event_of(
    names: HostNames,
    path: Seq<char>,
    event_id: u64,
    flags: u32,
) -> EventView {
    EventView {
        path: names.observed(path),
        event_id,
        flags,
        must_rescan: flags & MUST_RESCAN != 0,
        root_changed: flags & ROOT_CHANGED != 0,
    }
}

impl ChangeEvent {
    pub fn from_flags(path: &str, event_id: u64, flags: u32, names: &HostNames) -> (event: Self)
        ensures
            event@ == event_of(*names, path@, event_id, flags),
    {
        ChangeEvent {
            path: names.observed_path(path),
            event_id,
            flags,
            must_rescan: flags & MUST_RESCAN != 0,
            root_changed: flags & ROOT_CHANGED != 0,
        }
    }
}

/// The path and a root lie on one branch.
pub open spec fn on_branch(path: Seq<char>, root: Seq<char>) -> bool {
    paths::path_starts_with(path, root) || paths::path_starts_with(root, path)
}

/// The path and some root lie on one branch.
pub open spec fn overlaps(path: Seq<char>, roots: Seq<Seq<char>>) -> bool {
    exists|i: int| 0 <= i < roots.len() && #[trigger] on_branch(path, roots[i])
}

/// Whether the path and some root lie on one branch.
pub fn path_overlaps(path: &str, roots: &[String]) -> (found: bool)
    ensures
        found == overlaps(path@, text::texts(roots@)),
{
    let ghost list = text::texts(roots@);
    let mut next: usize = 0;
    while next < roots.len()
        invariant
            next <= roots@.len(),
            list == text::texts(roots@),
            forall|i: int| 0 <= i < next ==> !#[trigger] on_branch(path@, list[i]),
        decreases roots@.len() - next,
    {
        let root = roots[next].as_str();
        assert(list[next as int] == root@);
        if starts_with(path, root) || starts_with(root, path) {
            assert(on_branch(path@, list[next as int]));
            return true;
        }
        next = next + 1;
    }
    false
}

/// The invalidations of history among some events.
pub open spec fn controls_of(events: Seq<EventView>) -> u32
    decreases events.len(),
{
    if events.len() == 0 {
        0
    } else {
        controls_of(events.drop_last()) | (events.last().flags & GLOBAL_HISTORY_INVALIDATION)
    }
}

/// One event for each root in place of more than can be kept.
pub open spec fn overflow_events(
    names: HostNames,
    roots: Seq<Seq<char>>,
    event_id: u64,
    controls: u32,
) -> Seq<EventView> {
    roots.map_values(|root: Seq<char>| event_of(names, root, event_id, 0x03 | controls))
}

/// The queue after the host reported an event.
pub open spec fn collected(
    names: HostNames,
    roots: Seq<Seq<char>>,
    queue: Seq<EventView>,
    path: Seq<char>,
    event_id: u64,
    flags: u32,
) -> Seq<EventView> {
    if flags & (EVENT_HISTORY_DONE | GLOBAL_HISTORY_INVALIDATION) != 0 {
        queue.push(event_of(names, "/"@, event_id, flags))
    } else if !overlaps(names.observed(path), roots) {
        queue
    } else if queue.len() >= MAX_QUEUED_EVENTS {
        overflow_events(names, roots, event_id, controls_of(queue))
    } else {
        queue.push(event_of(names, names.observed(path), event_id, flags))
    }
}

/// Events for some roots, from the host's reports to the indexer.
pub struct Watcher {
    pub roots: Vec<String>,
    pub events: Vec<ChangeEvent>,
}

/// The closest directory at or above a path, by what the host says of directories.
pub open spec fn nearest_directory(
    path: Seq<char>,
    directory: spec_fn(Seq<char>) -> bool,
) -> Seq<char>
    decreases path.len(),
{
    if directory(path) {
        path
    } else {
        match paths::parent_path(path) {
            Some(up) => if up.len() < path.len() {
                nearest_directory(up, directory)
            } else {
                "/"@
            },
            None => "/"@,
        }
    }
}

/// Where a root is watched: at itself where it is a directory, else from its parent upwards.
pub open spec fn watched_at(root: Seq<char>, directory: spec_fn(Seq<char>) -> bool) -> Seq<char> {
    if directory(root) {
        nearest_directory(root, directory)
    } else {
        match paths::parent_path(root) {
            Some(up) => nearest_directory(up, directory),
            None => nearest_directory("/"@, directory),
        }
    }
}

fn find_directory<D: Fn(&str) -> bool>(path: String, is_directory: &D) -> (found: String)
    requires
        forall|p: &str| #[trigger] call_requires(*is_directory, (p,)),
    ensures
        forall|d: spec_fn(Seq<char>) -> bool| #[trigger]
            selection::agrees(*is_directory, d) ==> found@ == nearest_directory(path@, d),
{
    let mut at = path;
    loop
        invariant
            forall|p: &str| #[trigger] call_requires(*is_directory, (p,)),
            forall|d: spec_fn(Seq<char>) -> bool| #[trigger]
                selection::agrees(*is_directory, d) ==> nearest_directory(at@, d)
                    == nearest_directory(path@, d),
        decreases at@.len(),
    {
        if is_directory(at.as_str()) {
            return at;
        }
        match parent(at.as_str()) {
            Some(up) => {
                at = up;
            },
            None => {
                return "/".to_owned();
            },
        }
    }
}

fn watch_point<D: Fn(&str) -> bool>(root: &str, is_directory: &D) -> (found: String)
    requires
        forall|p: &str| #[trigger] call_requires(*is_directory, (p,)),
    ensures
        forall|d: spec_fn(Seq<char>) -> bool| #[trigger]
            selection::agrees(*is_directory, d) ==> found@ == watched_at(root@, d),
{
    if is_directory(root) {
        return find_directory(root.to_owned(), is_directory);
    }
    let start = match parent(root) {
        Some(up) => up,
        None => "/".to_owned(),
    };
    find_directory(start, is_directory)
}

impl Watcher {
    /// A watcher of roots and the paths at which the host is to watch. A root that is away is
    /// watched from the closest directory above it, a link from its parent.
    pub fn start<D: Fn(&str) -> bool>(roots: &[String], names: &HostNames, is_directory: D) -> (
        started: Result<(Self, Vec<String>), String>)
        requires
            forall|p: &str| #[trigger] call_requires(is_directory, (p,)),
        ensures
            match started {
                Ok((watcher, watched)) => {
                    let list = selection::scopes_of(*names, text::texts(roots@));
                    &&& list.len() > 0
                    &&& text::texts(watcher.roots@) == list
                    &&& watcher.events@.len() == 0
                    &&& forall|d: spec_fn(Seq<char>) -> bool| #[trigger]
                        selection::agrees(is_directory, d) ==> text::texts(watched@)
                            == selection::scopes_of(
                            *names,
                            list.map_values(|root: Seq<char>| watched_at(root, d)),
                        )
                },
                Err(error) => selection::scopes_of(*names, text::texts(roots@)).len() == 0
                    && error@ == "No roots selected for watching"@,
            },
    {
        let list = normalize_scopes(roots, names);
        assert(text::texts(list@).len() == list@.len());
        if list.len() == 0 {
            return Err("No roots selected for watching".to_owned());
        }
        let mut watched: Vec<String> = Vec::new();
        let mut next: usize = 0;
        while next < list.len()
            invariant
                next <= list@.len(),
                watched@.len() == next,
                forall|p: &str| #[trigger] call_requires(is_directory, (p,)),
                forall|d: spec_fn(Seq<char>) -> bool, i: int|
                    #![trigger selection::agrees(is_directory, d), watched@[i]]
                    selection::agrees(is_directory, d) && 0 <= i < next ==> watched@[i]@
                        == watched_at(list@[i]@, d),
            decreases list@.len() - next,
        {
            let point = watch_point(list[next].as_str(), &is_directory);
            watched.push(point);
            next = next + 1;
        }
        proof {
            let made = text::texts(watched@);
            assert forall|d: spec_fn(Seq<char>) -> bool| #[trigger]
                selection::agrees(is_directory, d) implies made == text::texts(list@).map_values(
                |root: Seq<char>| watched_at(root, d),
            ) by {
                let each = text::texts(list@).map_values(|root: Seq<char>| watched_at(root, d));
                assert forall|i: int| 0 <= i < made.len() implies made[i] == each[i] by {
                    assert(made[i] == watched@[i]@);
                }
                assert(made =~= each);
            }
        }
        let watched = normalize_scopes(watched.as_slice(), names);
        Ok((Watcher { roots: list, events: Vec::new() }, watched))
    }

    /// Keep an event that the host reports, where it concerns the roots. The path of an event
    /// that ends or invalidates history is undefined, so that event always counts.
    pub fn collect(&mut self, path: &str, event_id: u64, flags: u32, names: &HostNames)
        ensures
            final(self).roots == old(self).roots,
            event_views(final(self).events@) == collected(
                *names,
                text::texts(old(self).roots@),
                event_views(old(self).events@),
                path@,
                event_id,
                flags,
            ),
    {
        let ghost before = event_views(self.events@);
        if flags & (EVENT_HISTORY_DONE | GLOBAL_HISTORY_INVALIDATION) != 0 {
            let event = ChangeEvent::from_flags("/", event_id, flags, names);
            self.events.push(event);
            assert(event_views(self.events@) =~= before.push(event@));
            return;
        }
        let seen = names.observed_path(path);
        if !path_overlaps(seen.as_str(), self.roots.as_slice()) {
            return;
        }
        assert(before.len() == self.events@.len());
        if self.events.len() >= MAX_QUEUED_EVENTS {
            let mut controls: u32 = 0;
            let mut next: usize = 0;
            assert(before.take(0) =~= Seq::<EventView>::empty());
            while next < self.events.len()
                invariant
                    next <= self.events@.len(),
                    self.roots == old(self).roots,
                    before == event_views(self.events@),
                    controls == controls_of(before.take(next as int)),
                decreases self.events@.len() - next,
            {
                let ghost part = before.take(next + 1);
                assert(part.drop_last() =~= before.take(next as int));
                assert(part.last() == self.events@[next as int]@);
                controls = controls | (self.events[next].flags & GLOBAL_HISTORY_INVALIDATION);
                next = next + 1;
            }
            assert(before.take(next as int) =~= before);
            let ghost want = overflow_events(
                *names,
                text::texts(self.roots@),
                event_id,
                controls,
            );
            let mut kept: Vec<ChangeEvent> = Vec::new();
            let mut next: usize = 0;
            assert(event_views(kept@) =~= want.take(0));
            while next < self.roots.len()
                invariant
                    next <= self.roots@.len(),
                    self.roots == old(self).roots,
                    want == overflow_events(
                        *names,
                        text::texts(self.roots@),
                        event_id,
                        controls,
                    ),
                    event_views(kept@) == want.take(next as int),
                decreases self.roots@.len() - next,
            {
                let ghost some = event_views(kept@);
                let event = ChangeEvent::from_flags(
                    self.roots[next].as_str(),
                    event_id,
                    0x03 | controls,
                    names,
                );
                kept.push(event);
                next = next + 1;
                assert(event_views(kept@) =~= some.push(event@));
                assert(event_views(kept@) =~= want.take(next as int));
            }
            assert(want.take(next as int) =~= want);
            self.events = kept;
        } else {
            let event = ChangeEvent::from_flags(seen.as_str(), event_id, flags, names);
            self.events.push(event);
            assert(event_views(self.events@) =~= before.push(event@));
        }
    }

    /// Take the events. Where the host failed to report some, every root is dirty.
    pub fn drain(&mut self, reports_failed: bool, names: &HostNames) -> (events: Vec<ChangeEvent>)
        ensures
            final(self).roots == old(self).roots,
            final(self).events@.len() == 0,
            event_views(events@) == (if reports_failed {
                all_dirty(
                    *names,
                    text::texts(old(self).roots@),
                    event_views(old(self).events@),
                    old(self).roots@.len(),
                )
            } else {
                event_views(old(self).events@)
            }),
    {
        let ghost first = event_views(self.events@);
        if reports_failed {
            let mut next: usize = 0;
            while next < self.roots.len()
                invariant
                    next <= self.roots@.len(),
                    self.roots == old(self).roots,
                    first == event_views(old(self).events@),
                    event_views(self.events@) == all_dirty(
                        *names,
                        text::texts(self.roots@),
                        first,
                        next as nat,
                    ),
                decreases self.roots@.len() - next,
            {
                let root = self.roots[next].clone();
                assert(root@ == text::texts(self.roots@)[next as int]);
                self.collect(root.as_str(), 0, 0x03, names);
                next = next + 1;
            }
        }
        let mut taken: Vec<ChangeEvent> = Vec::new();
        std::mem::swap(&mut taken, &mut self.events);
        taken
    }
}

/// The queue after the first `count` roots were reported as dirty.
pub open spec fn all_dirty(
    names: HostNames,
    roots: Seq<Seq<char>>,
    queue: Seq<EventView>,
    count: nat,
) -> Seq<EventView>
    decreases count,
{
    if count == 0 {
        queue
    } else {
        collected(
            names,
            roots,
            all_dirty(names, roots, queue, (count - 1) as nat),
            roots[count - 1],
            0,
            0x03,
        )
    }
}

/// An event that ends or invalidates history is kept whatever path it has.
pub proof fn law_history_controls_are_kept(
    names: HostNames,
    roots: Seq<Seq<char>>,
    queue: Seq<EventView>,
    path: Seq<char>,
    event_id: u64,
    flags: u32,
)
    requires
        flags & (EVENT_HISTORY_DONE | GLOBAL_HISTORY_INVALIDATION) != 0,
    ensures
        collected(names, roots, queue, path, event_id, flags).last().flags == flags,
{
}

/// The queue never exceeds its limit by events of paths, as long as there are not that many
/// roots.
pub proof fn law_queue_is_bounded(
    names: HostNames,
    roots: Seq<Seq<char>>,
    queue: Seq<EventView>,
    path: Seq<char>,
    event_id: u64,
    flags: u32,
)
    requires
        flags & (EVENT_HISTORY_DONE | GLOBAL_HISTORY_INVALIDATION) == 0,
        roots.len() <= MAX_QUEUED_EVENTS,
        queue.len() <= MAX_QUEUED_EVENTS,
    ensures
        collected(names, roots, queue, path, event_id, flags).len() <= MAX_QUEUED_EVENTS,
{
}

/// What an invalidation of history says survives when the queue overflows.
pub proof fn law_invalidation_survives_overflow(
    names: HostNames,
    roots: Seq<Seq<char>>,
    queue: Seq<EventView>,
    path: Seq<char>,
    event_id: u64,
    flags: u32,
    place: int,
)
    requires
        flags & (EVENT_HISTORY_DONE | GLOBAL_HISTORY_INVALIDATION) == 0,
        overlaps(names.observed(path), roots),
        queue.len() >= MAX_QUEUED_EVENTS,
        0 <= place < queue.len(),
        queue[place].flags & EVENT_IDS_WRAPPED != 0,
    ensures
        forall|i: int|
            0 <= i < roots.len() ==> (#[trigger] collected(
                names,
                roots,
                queue,
                path,
                event_id,
                flags,
            )[i]).flags & EVENT_IDS_WRAPPED != 0,
{
    lemma_controls(queue, place);
    let controls = controls_of(queue);
    let kept = 0x03u32 | controls;
    assert(kept & 0x08 != 0) by (bit_vector)
        requires
            controls & 0x08 != 0,
            kept == 0x03u32 | controls,
    ;
}

proof fn lemma_controls(queue: Seq<EventView>, place: int)
    requires
        0 <= place < queue.len(),
        queue[place].flags & EVENT_IDS_WRAPPED != 0,
    ensures
        controls_of(queue) & EVENT_IDS_WRAPPED != 0,
    decreases queue.len(),
{
    let rest = controls_of(queue.drop_last());
    let flags = queue.last().flags;
    if place < queue.len() - 1 {
        lemma_controls(queue.drop_last(), place);
        assert((rest | (flags & 0x0e)) & 0x08 != 0) by (bit_vector)
            requires
                rest & 0x08 != 0,
        ;
    } else {
        assert((rest | (flags & 0x0e)) & 0x08 != 0) by (bit_vector)
            requires
                flags & 0x08 != 0,
        ;
    }
}

} // verus!
