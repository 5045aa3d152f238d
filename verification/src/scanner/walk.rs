//! What the steps of a scan come to when they are carried through.
//!
//! The host shows directories; a worker takes the directory that came last, takes in its entries
//! and queues its directories. Of what is shown, a whole scan takes in each entry once.
use crate::paths;
use crate::scanner::entry;
use crate::scanner::entry::{EntryView, FileMetadata};
use crate::scanner::namespace;
use crate::scanner::plan;
use crate::scanner::traversal;
use crate::scanner::traversal::{Collected, Listing};
use crate::text;
use vstd::prelude::*;

verus! {

/// An entry of a directory as the host shows it: its name and its metadata.
pub type Shown = (Seq<char>, FileMetadata);

/// The paths by which a scan is bound.
pub struct Bounds {
    pub configured: Seq<Seq<char>>,
    pub excluded: Seq<Seq<char>>,
}

/// An entry is taken in: it is not skipped and can be read.
pub open spec fn taken_in(path: Seq<char>, metadata: FileMetadata, bounds: Bounds) -> bool {
    !traversal::skipped(path, bounds.configured, bounds.excluded) && metadata.error is None
}

/// The entries of a directory that are taken in.
pub open spec fn entries_in(dir: Seq<char>, shown: Seq<Shown>, bounds: Bounds) -> Seq<EntryView>
    decreases shown.len(),
{
    if shown.len() == 0 {
        Seq::empty()
    } else {
        let before = entries_in(dir, shown.drop_last(), bounds);
        let (name, metadata) = shown.last();
        let path = paths::path_join(dir, name);
        if taken_in(path, metadata, bounds) {
            before.push(entry::entry_of(path, metadata))
        } else {
            before
        }
    }
}

/// The directories of a directory that are queued.
pub open spec fn queued_in(dir: Seq<char>, shown: Seq<Shown>, bounds: Bounds) -> Seq<Seq<char>>
    decreases shown.len(),
{
    if shown.len() == 0 {
        Seq::empty()
    } else {
        let before = queued_in(dir, shown.drop_last(), bounds);
        let (name, metadata) = shown.last();
        let path = paths::path_join(dir, name);
        before + plan::one_if(
            path,
            taken_in(path, metadata, bounds) && traversal::listed(
                entry::entry_of(path, metadata),
                bounds.configured,
            ),
        )
    }
}

/// A scan after some directories: the entries taken in, the directories listed, and those that
/// still wait.
pub struct Walk {
    pub entries: Seq<EntryView>,
    pub listed: Seq<Seq<char>>,
    pub waiting: Seq<Seq<char>>,
}

/// The scan after so many directories. The directory that came last is listed next.
pub open spec fn walk(
    show: spec_fn(Seq<char>) -> Seq<Shown>,
    bounds: Bounds,
    starts: Seq<Seq<char>>,
    steps: nat,
) -> Walk
    decreases steps,
{
    if steps == 0 {
        Walk { entries: Seq::empty(), listed: Seq::empty(), waiting: starts }
    } else {
        let before = walk(show, bounds, starts, (steps - 1) as nat);
        if before.waiting.len() == 0 {
            before
        } else {
            let dir = before.waiting.last();
            Walk {
                entries: before.entries + entries_in(dir, show(dir), bounds),
                listed: before.listed.push(dir),
                waiting: before.waiting.drop_last() + queued_in(dir, show(dir), bounds),
            }
        }
    }
}

/// Names as a directory has them: each once, and none that leads elsewhere.
pub open spec fn directory_names(shown: Seq<Shown>) -> bool {
    &&& forall|i: int|
        0 <= i < shown.len() ==> paths::is_component((#[trigger] shown[i]).0)
            && !shown[i].0.contains('/')
    &&& forall|i: int, j: int|
        0 <= i < j < shown.len() ==> (#[trigger] shown[i]).0 != (#[trigger] shown[j]).0
}

/// Neither path lies in the other.
pub open spec fn apart(a: Seq<char>, b: Seq<char>) -> bool {
    !paths::path_starts_with(a, b) && !paths::path_starts_with(b, a)
}

/// Absolute paths of which none lies in another.
pub open spec fn all_apart(dirs: Seq<Seq<char>>) -> bool {
    &&& forall|i: int| 0 <= i < dirs.len() ==> paths::has_root(#[trigger] dirs[i])
    &&& forall|i: int, j: int|
        0 <= i < j < dirs.len() ==> apart(#[trigger] dirs[i], #[trigger] dirs[j])
}

/// The path of an entry stands in a directory under one of its names.
spec fn stands_in(path: Seq<char>, dir: Seq<char>, name: Seq<char>) -> bool {
    paths::has_root(path) && paths::components(path) == paths::components(dir).push(name)
}

proof fn lemma_fewer_names(shown: Seq<Shown>)
    requires
        directory_names(shown),
        shown.len() > 0,
    ensures
        directory_names(shown.drop_last()),
{
    let init = shown.drop_last();
    assert forall|i: int| 0 <= i < init.len() implies paths::is_component((#[trigger] init[i]).0)
        && !init[i].0.contains('/') by {
        assert(init[i] == shown[i]);
    }
    assert forall|i: int, j: int| 0 <= i < j < init.len() implies (#[trigger] init[i]).0 != (
    #[trigger] init[j]).0 by {
        assert(init[i] == shown[i] && init[j] == shown[j]);
    }
}

/// An entry stands in a directory under a name and is not skipped.
spec fn found_as(found: EntryView, dir: Seq<char>, name: Seq<char>, bounds: Bounds) -> bool {
    &&& stands_in(found.path, dir, name)
    &&& !traversal::skipped(found.path, bounds.configured, bounds.excluded)
}

/// Each entry of a directory stands under a name of its own and is taken in.
proof fn lemma_entries(dir: Seq<char>, shown: Seq<Shown>, bounds: Bounds) -> (at: Seq<int>)
    requires
        paths::has_root(dir),
        directory_names(shown),
    ensures
        at.len() == entries_in(dir, shown, bounds).len(),
        forall|i: int| 0 <= i < at.len() ==> 0 <= #[trigger] at[i] < shown.len(),
        forall|i: int, j: int| 0 <= i < j < at.len() ==> #[trigger] at[i] < #[trigger] at[j],
        forall|i: int|
            #![trigger at[i]]
            0 <= i < at.len() ==> found_as(
                entries_in(dir, shown, bounds)[i],
                dir,
                shown[at[i]].0,
                bounds,
            ),
    decreases shown.len(),
{
    if shown.len() == 0 {
        Seq::empty()
    } else {
        lemma_fewer_names(shown);
        let init = shown.drop_last();
        let before = lemma_entries(dir, init, bounds);
        let (name, metadata) = shown.last();
        assert(shown[shown.len() - 1] == shown.last());
        let path = paths::path_join(dir, name);
        paths::lemma_join_components(dir, name);
        let (few, all) = (entries_in(dir, init, bounds), entries_in(dir, shown, bounds));
        let at = if taken_in(path, metadata, bounds) {
            before.push(shown.len() - 1)
        } else {
            before
        };
        assert forall|i: int|
            #![trigger at[i]]
            0 <= i < at.len() implies 0 <= at[i] < shown.len() && found_as(
            all[i],
            dir,
            shown[at[i]].0,
            bounds,
        ) by {
            if i < before.len() {
                assert(at[i] == before[i]);
                assert(all[i] == few[i]);
                assert(init[before[i]] == shown[before[i]]);
                assert(found_as(few[i], dir, init[before[i]].0, bounds));
            } else {
                assert(all[i] == entry::entry_of(path, metadata));
            }
        }
        assert forall|i: int, j: int| 0 <= i < j < at.len() implies #[trigger] at[i] < #[trigger] at[j] by {
            assert(at[i] == before[i]);
            if j < before.len() {
                assert(at[j] == before[j]);
            }
        }
        at
    }
}

/// Each queued directory stands under a name of its own.
proof fn lemma_queued(dir: Seq<char>, shown: Seq<Shown>, bounds: Bounds) -> (at: Seq<int>)
    requires
        paths::has_root(dir),
        directory_names(shown),
    ensures
        at.len() == queued_in(dir, shown, bounds).len(),
        forall|i: int| 0 <= i < at.len() ==> 0 <= #[trigger] at[i] < shown.len(),
        forall|i: int, j: int| 0 <= i < j < at.len() ==> #[trigger] at[i] < #[trigger] at[j],
        forall|i: int|
            #![trigger at[i]]
            0 <= i < at.len() ==> stands_in(
                queued_in(dir, shown, bounds)[i],
                dir,
                shown[at[i]].0,
            ),
    decreases shown.len(),
{
    if shown.len() == 0 {
        Seq::empty()
    } else {
        lemma_fewer_names(shown);
        let init = shown.drop_last();
        let before = lemma_queued(dir, init, bounds);
        let (name, metadata) = shown.last();
        assert(shown[shown.len() - 1] == shown.last());
        let path = paths::path_join(dir, name);
        paths::lemma_join_components(dir, name);
        let (few, all) = (queued_in(dir, init, bounds), queued_in(dir, shown, bounds));
        let at = if all.len() > few.len() {
            before.push(shown.len() - 1)
        } else {
            before
        };
        assert forall|i: int|
            #![trigger at[i]]
            0 <= i < at.len() implies 0 <= at[i] < shown.len() && stands_in(
            all[i],
            dir,
            shown[at[i]].0,
        ) by {
            if i < before.len() {
                assert(at[i] == before[i]);
                assert(all[i] == few[i]);
                assert(init[before[i]] == shown[before[i]]);
            } else {
                assert(all[i] == path);
            }
        }
        assert forall|i: int, j: int| 0 <= i < j < at.len() implies #[trigger] at[i] < #[trigger] at[j] by {
            assert(at[i] == before[i]);
            if j < before.len() {
                assert(at[j] == before[j]);
            }
        }
        at
    }
}

/// What begins a path with one more name begins the path, or is the longer one.
proof fn lemma_begins_longer(base: Seq<char>, dir: Seq<char>, path: Seq<char>, name: Seq<char>)
    requires
        stands_in(path, dir, name),
    ensures
        paths::path_starts_with(path, dir),
        namespace::strictly_below(path, dir),
        paths::path_starts_with(path, base) ==> paths::path_starts_with(dir, base)
            || paths::components(base) == paths::components(path),
        paths::path_starts_with(base, path) ==> namespace::strictly_below(base, dir),
{
    let (b, d, p) = (paths::components(base), paths::components(dir), paths::components(path));
    assert(p.subrange(0, d.len() as int) =~= d);
    if paths::path_starts_with(path, base) {
        assert(p.subrange(0, b.len() as int) == b);
        if b.len() <= d.len() {
            assert(d.subrange(0, b.len() as int) =~= b);
        } else {
            assert(p.subrange(0, b.len() as int) =~= p);
        }
    }
    if paths::path_starts_with(base, path) {
        assert(b.subrange(0, p.len() as int) == p);
        assert(b.subrange(0, d.len() as int) =~= d) by {
            assert forall|i: int| 0 <= i < d.len() implies b[i] == d[i] by {
                assert(b.subrange(0, p.len() as int)[i] == p[i]);
            }
        }
    }
}

/// What holds of a walk after any number of directories.
spec fn holds(state: Walk, bounds: Bounds, starts: Seq<Seq<char>>) -> bool {
    &&& all_apart(state.waiting)
    &&& forall|i: int, j: int|
        0 <= i < j < state.entries.len() ==> paths::components((#[trigger] state.entries[i]).path)
            != paths::components((#[trigger] state.entries[j]).path)
    &&& forall|i: int, k: int|
        0 <= i < state.entries.len() && 0 <= k < state.waiting.len() ==> !namespace::strictly_below(
            (#[trigger] state.entries[i]).path,
            #[trigger] state.waiting[k],
        )
    &&& forall|i: int|
        0 <= i < state.entries.len() ==> !traversal::skipped(
            (#[trigger] state.entries[i]).path,
            bounds.configured,
            bounds.excluded,
        )
    &&& forall|i: int|
        0 <= i < state.entries.len() ==> lies_below((#[trigger] state.entries[i]).path, starts)
    &&& forall|k: int| 0 <= k < state.waiting.len() ==> lies_in(#[trigger] state.waiting[k], starts)
}

/// A path lies strictly below one of some.
pub open spec fn lies_below(path: Seq<char>, starts: Seq<Seq<char>>) -> bool {
    exists|i: int|
        0 <= i < starts.len() && namespace::strictly_below(path, #[trigger] starts[i])
}

spec fn lies_in(path: Seq<char>, starts: Seq<Seq<char>>) -> bool {
    exists|i: int|
        0 <= i < starts.len() && paths::path_starts_with(path, #[trigger] starts[i])
}

proof fn lemma_below_start(path: Seq<char>, dir: Seq<char>, name: Seq<char>, starts: Seq<Seq<char>>)
    requires
        stands_in(path, dir, name),
        lies_in(dir, starts),
    ensures
        lies_below(path, starts),
        lies_in(path, starts),
{
    let i = choose|i: int|
        0 <= i < starts.len() && paths::path_starts_with(dir, #[trigger] starts[i]);
    let (s, d, p) = (
        paths::components(starts[i]),
        paths::components(dir),
        paths::components(path),
    );
    assert(d.subrange(0, s.len() as int) == s);
    assert(p.subrange(0, s.len() as int) =~= s) by {
        assert forall|k: int| 0 <= k < s.len() implies p[k] == s[k] by {
            assert(d.subrange(0, s.len() as int)[k] == d[k]);
        }
    }
    assert(namespace::strictly_below(path, starts[i]));
}

proof fn lemma_step_entries(
    before: Walk,
    after: Walk,
    shown: Seq<Shown>,
    bounds: Bounds,
    starts: Seq<Seq<char>>,
)
    requires
        holds(before, bounds, starts),
        before.waiting.len() > 0,
        directory_names(shown),
        after.entries == before.entries + entries_in(before.waiting.last(), shown, bounds),
    ensures
        forall|i: int, j: int|
            0 <= i < j < after.entries.len() ==> paths::components(
                (#[trigger] after.entries[i]).path,
            ) != paths::components((#[trigger] after.entries[j]).path),
        forall|i: int|
            0 <= i < after.entries.len() ==> !traversal::skipped(
                (#[trigger] after.entries[i]).path,
                bounds.configured,
                bounds.excluded,
            ),
        forall|i: int|
            0 <= i < after.entries.len() ==> lies_below((#[trigger] after.entries[i]).path, starts),
{
    let dir = before.waiting.last();
    assert(before.waiting[before.waiting.len() - 1] == dir);
    let at = lemma_entries(dir, shown, bounds);
    let more = entries_in(dir, shown, bounds);
    let n = before.entries.len();
    assert forall|i: int, j: int| 0 <= i < j < after.entries.len() implies paths::components(
        (#[trigger] after.entries[i]).path,
    ) != paths::components((#[trigger] after.entries[j]).path) by {
        if j < n {
            assert(after.entries[i] == before.entries[i] && after.entries[j] == before.entries[j]);
        } else {
            assert(after.entries[j] == more[j - n]);
            let name = shown[at[j - n]].0;
            let path = more[j - n].path;
            lemma_begins_longer(dir, dir, path, name);
            if i < n {
                assert(after.entries[i] == before.entries[i]);
                assert(!namespace::strictly_below(
                    before.entries[i].path,
                    before.waiting[before.waiting.len() - 1],
                ));
            } else {
                assert(after.entries[i] == more[i - n]);
                assert(at[i - n] < at[j - n]);
                let other = shown[at[i - n]].0;
                assert(paths::components(more[i - n].path).last() == other);
                assert(paths::components(path).last() == name);
            }
        }
    }
    assert forall|i: int| 0 <= i < after.entries.len() implies !traversal::skipped(
        (#[trigger] after.entries[i]).path,
        bounds.configured,
        bounds.excluded,
    ) && lies_below(after.entries[i].path, starts) by {
        if i < n {
            assert(after.entries[i] == before.entries[i]);
        } else {
            assert(after.entries[i] == more[i - n]);
            assert(0 <= at[i - n] < shown.len());
            lemma_below_start(more[i - n].path, dir, shown[at[i - n]].0, starts);
        }
    }
}

proof fn lemma_step_waiting(
    before: Walk,
    after: Walk,
    shown: Seq<Shown>,
    bounds: Bounds,
    starts: Seq<Seq<char>>,
)
    requires
        holds(before, bounds, starts),
        before.waiting.len() > 0,
        directory_names(shown),
        after.entries == before.entries + entries_in(before.waiting.last(), shown, bounds),
        after.waiting == before.waiting.drop_last() + queued_in(
            before.waiting.last(),
            shown,
            bounds,
        ),
    ensures
        all_apart(after.waiting),
        forall|k: int|
            0 <= k < after.waiting.len() ==> lies_in(#[trigger] after.waiting[k], starts),
        forall|i: int, k: int|
            0 <= i < after.entries.len() && 0 <= k < after.waiting.len()
                ==> !namespace::strictly_below(
                (#[trigger] after.entries[i]).path,
                #[trigger] after.waiting[k],
            ),
{
    let dir = before.waiting.last();
    let last = before.waiting.len() - 1;
    assert(before.waiting[last] == dir);
    let at = lemma_queued(dir, shown, bounds);
    let more = queued_in(dir, shown, bounds);
    assert forall|k: int| 0 <= k < after.waiting.len() implies paths::has_root(
        #[trigger] after.waiting[k],
    ) && lies_in(after.waiting[k], starts) by {
        if k < last {
            assert(after.waiting[k] == before.waiting[k]);
        } else {
            assert(after.waiting[k] == more[k - last]);
            assert(0 <= at[k - last] < shown.len());
            lemma_below_start(more[k - last], dir, shown[at[k - last]].0, starts);
        }
    }
    assert forall|i: int, j: int| 0 <= i < j < after.waiting.len() implies apart(
        #[trigger] after.waiting[i],
        #[trigger] after.waiting[j],
    ) by {
        if j < last {
            assert(after.waiting[i] == before.waiting[i] && after.waiting[j] == before.waiting[j]);
        } else {
            assert(after.waiting[j] == more[j - last]);
            assert(0 <= at[j - last] < shown.len());
            let name = shown[at[j - last]].0;
            if i < last {
                let other = before.waiting[i];
                assert(after.waiting[i] == other);
                assert(apart(other, before.waiting[last]));
                lemma_begins_longer(other, dir, more[j - last], name);
                if paths::components(other) == paths::components(more[j - last]) {
                    assert(paths::path_starts_with(other, dir));
                }
            } else {
                assert(after.waiting[i] == more[i - last]);
                assert(at[i - last] < at[j - last]);
                let first = shown[at[i - last]].0;
                let (x, y) = (paths::components(more[i - last]), paths::components(more[j - last]));
                assert(x.len() == y.len());
                assert(x.last() == first && y.last() == name);
                if paths::path_starts_with(more[i - last], more[j - last]) {
                    assert(x.subrange(0, y.len() as int) =~= x);
                }
                if paths::path_starts_with(more[j - last], more[i - last]) {
                    assert(y.subrange(0, x.len() as int) =~= y);
                }
            }
        }
    }
    let places = lemma_entries(dir, shown, bounds);
    let found = entries_in(dir, shown, bounds);
    let n = before.entries.len();
    assert forall|i: int, k: int|
        0 <= i < after.entries.len() && 0 <= k < after.waiting.len() implies !namespace::strictly_below(
        (#[trigger] after.entries[i]).path,
        #[trigger] after.waiting[k],
    ) by {
        let (path, base) = (after.entries[i].path, after.waiting[k]);
        if namespace::strictly_below(path, base) {
            if k < last {
                assert(base == before.waiting[k]);
                if i < n {
                    assert(after.entries[i] == before.entries[i]);
                } else {
                    assert(after.entries[i] == found[i - n]);
                    assert(0 <= places[i - n] < shown.len());
                    lemma_begins_longer(base, dir, path, shown[places[i - n]].0);
                    assert(apart(base, before.waiting[last]));
                }
            } else {
                assert(base == more[k - last]);
                assert(0 <= at[k - last] < shown.len());
                let name = shown[at[k - last]].0;
                if i < n {
                    assert(after.entries[i] == before.entries[i]);
                    lemma_begins_longer(path, dir, base, name);
                    assert(namespace::strictly_below(before.entries[i].path, before.waiting[last]));
                } else {
                    assert(after.entries[i] == found[i - n]);
                    assert(0 <= places[i - n] < shown.len());
                    assert(paths::components(path).len() == paths::components(base).len());
                }
            }
        }
    }
}

proof fn lemma_walk_holds(
    show: spec_fn(Seq<char>) -> Seq<Shown>,
    bounds: Bounds,
    starts: Seq<Seq<char>>,
    steps: nat,
)
    requires
        all_apart(starts),
        forall|dir: Seq<char>| directory_names(#[trigger] show(dir)),
    ensures
        holds(walk(show, bounds, starts, steps), bounds, starts),
    decreases steps,
{
    if steps == 0 {
        assert forall|k: int| 0 <= k < starts.len() implies lies_in(#[trigger] starts[k], starts) by {
            let parts = paths::components(starts[k]);
            assert(parts.subrange(0, parts.len() as int) =~= parts);
        }
    } else {
        lemma_walk_holds(show, bounds, starts, (steps - 1) as nat);
        let before = walk(show, bounds, starts, (steps - 1) as nat);
        let after = walk(show, bounds, starts, steps);
        if before.waiting.len() > 0 {
            let shown = show(before.waiting.last());
            assert(directory_names(shown));
            lemma_step_entries(before, after, shown, bounds, starts);
            lemma_step_waiting(before, after, shown, bounds, starts);
        }
    }
}

/// A scan takes in no path twice, nothing that is excluded, and nothing but what lies below the
/// directories that it started from, as long as none of those lies in another and directories
/// have each name once.
pub proof fn law_a_scan_takes_in_no_entry_twice(
    show: spec_fn(Seq<char>) -> Seq<Shown>,
    bounds: Bounds,
    starts: Seq<Seq<char>>,
    steps: nat,
)
    requires
        all_apart(starts),
        forall|dir: Seq<char>| directory_names(#[trigger] show(dir)),
    ensures
        ({
            let entries = walk(show, bounds, starts, steps).entries;
            &&& forall|i: int, j: int|
                0 <= i < j < entries.len() ==> (#[trigger] entries[i]).path != (
                #[trigger] entries[j]).path
            &&& forall|i: int|
                0 <= i < entries.len() ==> !traversal::within(
                    (#[trigger] entries[i]).path,
                    bounds.excluded,
                ) && namespace::in_namespace(entries[i].path, bounds.configured)
            &&& forall|i: int|
                0 <= i < entries.len() ==> lies_below((#[trigger] entries[i]).path, starts)
        }),
{
    lemma_walk_holds(show, bounds, starts, steps);
}

/// A directory is queued when another one is listed.
pub open spec fn leads_to(
    show: spec_fn(Seq<char>) -> Seq<Shown>,
    bounds: Bounds,
    up: Seq<char>,
    dir: Seq<char>,
) -> bool {
    queued_in(up, show(up), bounds).contains(dir)
}

/// A directory that a scan comes to: one that it started from, or one queued in such a directory.
pub open spec fn comes_to(
    show: spec_fn(Seq<char>) -> Seq<Shown>,
    bounds: Bounds,
    starts: Seq<Seq<char>>,
    dir: Seq<char>,
    depth: nat,
) -> bool
    decreases depth,
{
    ||| starts.contains(dir)
    ||| depth > 0 && exists|up: Seq<char>|
        comes_to(show, bounds, starts, up, (depth - 1) as nat) && #[trigger] leads_to(
            show,
            bounds,
            up,
            dir,
        )
}

/// Every start and every directory queued in a listed one is listed or waits; all that a listed
/// directory shows is taken in.
spec fn keeps_all(
    state: Walk,
    show: spec_fn(Seq<char>) -> Seq<Shown>,
    bounds: Bounds,
    starts: Seq<Seq<char>>,
) -> bool {
    &&& forall|dir: Seq<char>| #[trigger]
        starts.contains(dir) ==> state.listed.contains(dir) || state.waiting.contains(dir)
    &&& forall|up: Seq<char>, dir: Seq<char>|
        state.listed.contains(up) && #[trigger] queued_in(up, show(up), bounds).contains(dir)
            ==> state.listed.contains(dir) || state.waiting.contains(dir)
    &&& forall|up: Seq<char>, found: EntryView|
        state.listed.contains(up) && #[trigger] entries_in(up, show(up), bounds).contains(found)
            ==> state.entries.contains(found)
}

proof fn lemma_walk_keeps(
    show: spec_fn(Seq<char>) -> Seq<Shown>,
    bounds: Bounds,
    starts: Seq<Seq<char>>,
    steps: nat,
)
    ensures
        keeps_all(walk(show, bounds, starts, steps), show, bounds, starts),
    decreases steps,
{
    if steps > 0 {
        lemma_walk_keeps(show, bounds, starts, (steps - 1) as nat);
        let before = walk(show, bounds, starts, (steps - 1) as nat);
        let after = walk(show, bounds, starts, steps);
        if before.waiting.len() > 0 {
            let dir = before.waiting.last();
            let (found, queued) = (
                entries_in(dir, show(dir), bounds),
                queued_in(dir, show(dir), bounds),
            );
            let rest = before.waiting.drop_last();
            assert(after.listed[before.listed.len() as int] == dir);
            assert forall|one: Seq<char>|
                before.listed.contains(one) || before.waiting.contains(
                    one,
                ) implies #[trigger] after.listed.contains(one) || after.waiting.contains(one) by {
                if before.listed.contains(one) {
                    let i = choose|i: int| 0 <= i < before.listed.len() && before.listed[i] == one;
                    assert(after.listed[i] == one);
                } else {
                    let i = choose|i: int| 0 <= i < before.waiting.len() && before.waiting[i] == one;
                    if i < rest.len() {
                        assert(after.waiting[i] == one);
                    }
                }
            }
            assert forall|one: Seq<char>| #[trigger] after.listed.contains(one) implies one == dir
                || before.listed.contains(one) by {
                let i = choose|i: int| 0 <= i < after.listed.len() && after.listed[i] == one;
                if i < before.listed.len() {
                    assert(before.listed[i] == one);
                }
            }
            assert forall|up: Seq<char>, one: Seq<char>|
                after.listed.contains(up) && #[trigger] queued_in(up, show(up), bounds).contains(
                    one,
                ) implies after.listed.contains(one) || after.waiting.contains(one) by {
                if up == dir {
                    let i = choose|i: int| 0 <= i < queued.len() && queued[i] == one;
                    assert(after.waiting[rest.len() + i] == one);
                }
            }
            assert forall|up: Seq<char>, one: EntryView|
                after.listed.contains(up) && #[trigger] entries_in(up, show(up), bounds).contains(
                    one,
                ) implies after.entries.contains(one) by {
                if up == dir {
                    let i = choose|i: int| 0 <= i < found.len() && found[i] == one;
                    assert(after.entries[before.entries.len() + i] == one);
                } else {
                    assert(before.entries.contains(one));
                    let i = choose|i: int| 0 <= i < before.entries.len() && before.entries[i] == one;
                    assert(after.entries[i] == one);
                }
            }
        }
    }
}

/// A scan that has nothing left to list has taken in every entry, that is not skipped and can be
/// read, of every directory that it comes to.
pub proof fn law_a_finished_scan_has_every_entry(
    show: spec_fn(Seq<char>) -> Seq<Shown>,
    bounds: Bounds,
    starts: Seq<Seq<char>>,
    steps: nat,
    dir: Seq<char>,
    depth: nat,
)
    requires
        walk(show, bounds, starts, steps).waiting.len() == 0,
        comes_to(show, bounds, starts, dir, depth),
    ensures
        walk(show, bounds, starts, steps).listed.contains(dir),
        forall|found: EntryView| #[trigger]
            entries_in(dir, show(dir), bounds).contains(found) ==> walk(
                show,
                bounds,
                starts,
                steps,
            ).entries.contains(found),
    decreases depth,
{
    let state = walk(show, bounds, starts, steps);
    lemma_walk_keeps(show, bounds, starts, steps);
    assert(!state.waiting.contains(dir));
    if !starts.contains(dir) {
        let up = choose|up: Seq<char>|
            comes_to(show, bounds, starts, up, (depth - 1) as nat) && #[trigger] leads_to(
                show,
                bounds,
                up,
                dir,
            );
        law_a_finished_scan_has_every_entry(show, bounds, starts, steps, up, (depth - 1) as nat);
    }
}

/// The entries that steps handed on.
pub open spec fn batched(steps: Seq<Collected>) -> Seq<EntryView>
    decreases steps.len(),
{
    if steps.len() == 0 {
        Seq::empty()
    } else {
        let before = batched(steps.drop_last());
        match steps.last() {
            Collected::Batch(batch) => before + entry::entry_views(batch@),
            _ => before,
        }
    }
}

/// A directory was listed: `listings` are the listing before each of the entries shown, and after
/// the last.
pub open spec fn lists(
    listings: Seq<Listing>,
    steps: Seq<Collected>,
    shown: Seq<Shown>,
    bounds: Bounds,
) -> bool {
    &&& listings.len() == shown.len() + 1
    &&& steps.len() == shown.len()
    &&& listings[0].entries@.len() == 0
    &&& listings[0].children@.len() == 0
    &&& forall|i: int|
        0 <= i < shown.len() ==> traversal::collects(
            #[trigger] listings[i],
            listings[i + 1],
            steps[i],
            shown[i].0,
            shown[i].1,
            bounds.configured,
            bounds.excluded,
        )
}

/// What the steps of a listing hand on and keep are the entries of the directory that are taken
/// in, in their order, and the directories that are queued.
pub proof fn law_a_listing_collects_what_is_taken_in(
    listings: Seq<Listing>,
    steps: Seq<Collected>,
    shown: Seq<Shown>,
    bounds: Bounds,
)
    requires
        lists(listings, steps, shown, bounds),
    ensures
        listings.last().directory@ == listings[0].directory@,
        batched(steps) + entry::entry_views(listings.last().entries@) == entries_in(
            listings[0].directory@,
            shown,
            bounds,
        ),
        text::texts(listings.last().children@) == queued_in(
            listings[0].directory@,
            shown,
            bounds,
        ),
    decreases shown.len(),
{
    let dir = listings[0].directory@;
    if shown.len() == 0 {
        assert(batched(steps) + entry::entry_views(listings.last().entries@) =~= Seq::empty());
        assert(text::texts(listings.last().children@) =~= Seq::empty());
    } else {
        let n = shown.len() - 1;
        let (before, few, some) = (listings.drop_last(), steps.drop_last(), shown.drop_last());
        assert forall|i: int| 0 <= i < some.len() implies traversal::collects(
            #[trigger] before[i],
            before[i + 1],
            few[i],
            some[i].0,
            some[i].1,
            bounds.configured,
            bounds.excluded,
        ) by {
            assert(before[i] == listings[i] && before[i + 1] == listings[i + 1]);
            assert(few[i] == steps[i] && some[i] == shown[i]);
        }
        assert(before[0] == listings[0]);
        law_a_listing_collects_what_is_taken_in(before, few, some, bounds);
        assert(before.last() == listings[n]);
        assert(traversal::collects(
            listings[n],
            listings[n + 1],
            steps[n],
            shown[n].0,
            shown[n].1,
            bounds.configured,
            bounds.excluded,
        ));
        let (old, new) = (
            entry::entry_views(listings[n].entries@),
            entry::entry_views(listings[n + 1].entries@),
        );
        let path = paths::path_join(dir, shown[n].0);
        let found = entry::entry_of(path, shown[n].1);
        if taken_in(path, shown[n].1, bounds) {
            assert(batched(steps) + new =~= batched(few) + old.push(found)) by {
                if steps[n] is Batch {
                    assert(new =~= Seq::<EntryView>::empty());
                }
            }
            assert(batched(few) + old.push(found) =~= (batched(few) + old).push(found));
        } else {
            assert(plan::one_if(path, false) =~= Seq::<Seq<char>>::empty());
            assert(batched(steps) =~= batched(few));
            assert(text::texts(listings[n].children@) + Seq::<Seq<char>>::empty() =~= text::texts(
                listings[n].children@,
            ));
        }
    }
}

/// An entry that is shown, not skipped and readable is among those that are taken in.
pub proof fn law_a_readable_entry_is_taken_in(
    dir: Seq<char>,
    shown: Seq<Shown>,
    bounds: Bounds,
    i: int,
)
    requires
        0 <= i < shown.len(),
        taken_in(paths::path_join(dir, shown[i].0), shown[i].1, bounds),
    ensures
        entries_in(dir, shown, bounds).contains(
            entry::entry_of(paths::path_join(dir, shown[i].0), shown[i].1),
        ),
    decreases shown.len(),
{
    let wanted = entry::entry_of(paths::path_join(dir, shown[i].0), shown[i].1);
    let init = shown.drop_last();
    let (few, all) = (entries_in(dir, init, bounds), entries_in(dir, shown, bounds));
    if i < init.len() {
        assert(init[i] == shown[i]);
        law_a_readable_entry_is_taken_in(dir, init, bounds, i);
        let k = choose|k: int| 0 <= k < few.len() && few[k] == wanted;
        assert(all[k] == wanted);
    } else {
        assert(all[few.len() as int] == wanted);
    }
}

} // verus!
