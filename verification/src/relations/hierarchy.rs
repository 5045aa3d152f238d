//! The directories of a snapshot with what they hold.
//!
//! One pass over the rows and one over the directories replace a scan of the subtree for each
//! directory. Several entries of one file object each add their size.
use crate::bitmaps;
use crate::cancellation;
use crate::bitmaps::slot_list;
use crate::files::IndexedFile;
use crate::paths;
use crate::paths::parent;
use crate::relations::topology;
use crate::relations::topology::Tally;
use crate::snapshot;
use crate::snapshot::{sorted_by_path, Snapshot};
use crate::text;
use crate::text::{copy_texts, same_text};
use crate::text_order;
use crate::text_order::{precedes, sort_distinct};
use vstd::prelude::*;

verus! {

/// Slots from the lowest to the highest.
pub open spec fn climbing(slots: Seq<u32>) -> bool {
    forall|i: int, j: int| 0 <= i < j < slots.len() ==> #[trigger] slots[i] < #[trigger] slots[j]
}

/// The slots of a set from the lowest to the highest.
pub open spec fn slot_sequence(set: Set<u32>) -> Seq<u32> {
    choose|list: Seq<u32>| climbing(list) && list.to_set() == set
}

proof fn lemma_climbing_unique(a: Seq<u32>, b: Seq<u32>)
    requires
        climbing(a),
        climbing(b),
        a.to_set() == b.to_set(),
    ensures
        a == b,
    decreases a.len(),
{
    assert forall|t: u32| a.contains(t) == #[trigger] b.contains(t) by {
        assert(a.to_set().contains(t) == a.contains(t));
        assert(b.to_set().contains(t) == b.contains(t));
    }
    if a.len() == 0 {
        if b.len() > 0 {
            assert(b.contains(b[0]));
        }
        assert(a =~= b);
    } else if b.len() == 0 {
        assert(a.contains(a[0]));
        assert(b.contains(a[0]));
    } else {
        let (x, y) = (a.last(), b.last());
        assert(a.contains(x) && b.contains(y));
        assert(b.contains(x) && a.contains(y));
        let i = choose|i: int| 0 <= i < b.len() && b[i] == x;
        let j = choose|j: int| 0 <= j < a.len() && a[j] == y;
        if x != y {
            assert(b[i] < b[b.len() - 1]);
            assert(a[j] < a[a.len() - 1]);
        }
        let (p, q) = (a.drop_last(), b.drop_last());
        assert forall|t: u32| #[trigger] p.to_set().contains(t) == q.to_set().contains(t) by {
            if p.contains(t) {
                let k = choose|k: int| 0 <= k < p.len() && p[k] == t;
                assert(a[k] < a[a.len() - 1]);
                assert(a[k] == t);
                assert(a.contains(t));
                assert(b.contains(t));
                let m = choose|m: int| 0 <= m < b.len() && b[m] == t;
                assert(q[m] == t);
            }
            if q.contains(t) {
                let k = choose|k: int| 0 <= k < q.len() && q[k] == t;
                assert(b[k] < b[b.len() - 1]);
                assert(b[k] == t);
                assert(b.contains(t));
                assert(a.contains(t));
                let m = choose|m: int| 0 <= m < a.len() && a[m] == t;
                assert(p[m] == t);
            }
        }
        assert(p.to_set() =~= q.to_set());
        lemma_climbing_unique(p, q);
        assert(a =~= p.push(x));
        assert(b =~= q.push(y));
    }
}

pub proof fn lemma_slot_sequence(list: Seq<u32>, set: Set<u32>)
    requires
        climbing(list),
        list.to_set() == set,
    ensures
        slot_sequence(set) == list,
{
    lemma_climbing_unique(slot_sequence(set), list);
}

proof fn lemma_climbing_bound(slots: Seq<u32>, i: int)
    requires
        climbing(slots),
        0 <= i < slots.len(),
    ensures
        slots[i] >= i,
    decreases i,
{
    if i > 0 {
        lemma_climbing_bound(slots, i - 1);
        assert(slots[i - 1] < slots[i]);
    }
}

/// What is known of the coverage of an index.
#[derive(Clone, Debug)]
pub struct Coverage {
    pub roots: Vec<String>,
    pub uncovered: Vec<String>,
    pub complete: bool,
}

/// The directories of a snapshot in the order of their paths.
pub struct Hierarchy {
    pub directory_slots: Vec<u32>,
    /// The closest directory above each row.
    pub parents: Vec<Option<u32>>,
    pub own_files: Vec<u64>,
    pub own_folders: Vec<u64>,
    pub all_files: Vec<u64>,
    pub all_folders: Vec<u64>,
    pub sizes: Vec<Option<u64>>,
}

pub open spec fn as_index(parent: Option<u32>) -> Option<int> {
    match parent {
        Some(index) => Some(index as int),
        None => None,
    }
}

/// A sum where it fits.
pub open spec fn fitting(sum: int) -> Option<u64> {
    if 0 <= sum <= u64::MAX {
        Some(sum as u64)
    } else {
        None
    }
}

/// The live slots that hold directories.
pub open spec fn folder_slots(state: Snapshot) -> Set<u32> {
    Set::new(
        |slot: u32|
            state.slots().contains(slot) && topology::is_folder(state.rows()[slot as int]),
    )
}

/// The live slots from the lowest to the highest.
pub open spec fn live_slots(state: Snapshot) -> Seq<u32> {
    slot_sequence(state.slots())
}

/// The sums of a directory are those of the rows below it.
pub open spec fn sums_to(tree: Hierarchy, rows: Seq<IndexedFile>, list: Seq<u32>, from: int) -> bool {
    let dirs = snapshot::paths_of(rows, tree.directory_slots@);
    let count = dirs.len();
    &&& tree.own_files@.len() == count
    &&& tree.own_folders@.len() == count
    &&& tree.all_files@.len() == count
    &&& tree.all_folders@.len() == count
    &&& tree.sizes@.len() == count
    &&& forall|d: int|
        0 <= d < count ==> #[trigger] tree.own_files@[d] == topology::total(
            rows,
            list,
            dirs,
            from,
            d,
            Tally::OwnFiles,
        )
    &&& forall|d: int|
        0 <= d < count ==> #[trigger] tree.own_folders@[d] == topology::total(
            rows,
            list,
            dirs,
            from,
            d,
            Tally::OwnFolders,
        )
    &&& forall|d: int|
        0 <= d < count ==> #[trigger] tree.all_files@[d] == topology::total(
            rows,
            list,
            dirs,
            from,
            d,
            Tally::Files,
        )
    &&& forall|d: int|
        0 <= d < count ==> #[trigger] tree.all_folders@[d] == topology::total(
            rows,
            list,
            dirs,
            from,
            d,
            Tally::Folders,
        )
    &&& forall|d: int|
        0 <= d < count ==> #[trigger] tree.sizes@[d] == fitting(
            topology::total(rows, list, dirs, from, d, Tally::Size),
        )
}

impl Hierarchy {
    /// The paths of the directories.
    pub open spec fn dirs(&self, state: Snapshot) -> Seq<Seq<char>> {
        snapshot::paths_of(state.rows(), self.directory_slots@)
    }

    /// These are the directories of a snapshot and what they hold.
    pub open spec fn describes(&self, state: Snapshot) -> bool {
        &&& self.lists_directories(state)
        &&& self.knows_parents(state)
        &&& sums_to(*self, state.rows(), live_slots(state), 0)
    }

    pub open spec fn lists_directories(&self, state: Snapshot) -> bool {
        &&& self.directory_slots@.to_set() == folder_slots(state)
        &&& text_order::ascending(self.dirs(state))
        &&& forall|i: int|
            0 <= i < self.directory_slots@.len() ==> (#[trigger] self.directory_slots@[i])
                < state.rows().len()
    }

    pub open spec fn knows_parents(&self, state: Snapshot) -> bool {
        &&& self.parents@.len() == state.rows().len()
        &&& forall|slot: u32| #[trigger]
            state.slots().contains(slot) ==> as_index(self.parents@[slot as int])
                == topology::nearest(self.dirs(state), state.rows()[slot as int].path@)
    }
}

/// A listed directory is a live row.
pub proof fn lemma_directory(tree: Hierarchy, state: Snapshot, d: int)
    requires
        tree.lists_directories(state),
        0 <= d < tree.directory_slots@.len(),
    ensures
        state.slots().contains(tree.directory_slots@[d]),
        tree.dirs(state)[d] == state.rows()[tree.directory_slots@[d] as int].path@,
{
    let slot = tree.directory_slots@[d];
    assert(tree.directory_slots@.to_set().contains(slot));
    assert(folder_slots(state).contains(slot));
}

/// The place of a directory by its path.
pub fn find_directory(rows: &Vec<IndexedFile>, slots: &Vec<u32>, path: &str) -> (place: Option<
    usize,
>)
    requires
        text_order::ascending(snapshot::paths_of(rows@, slots@)),
        forall|i: int| 0 <= i < slots@.len() ==> (#[trigger] slots@[i]) < rows@.len(),
    ensures
        match place {
            Some(i) => i < slots@.len() && snapshot::paths_of(rows@, slots@)[i as int] == path@,
            None => !snapshot::paths_of(rows@, slots@).contains(path@),
        },
{
    let ghost dirs = snapshot::paths_of(rows@, slots@);
    let mut low: usize = 0;
    let mut high: usize = slots.len();
    while low < high
        invariant
            low <= high <= slots@.len(),
            dirs == snapshot::paths_of(rows@, slots@),
            text_order::ascending(dirs),
            forall|i: int| 0 <= i < slots@.len() ==> (#[trigger] slots@[i]) < rows@.len(),
            forall|i: int| 0 <= i < low ==> #[trigger] dirs[i] != path@,
            forall|i: int| high <= i < dirs.len() ==> #[trigger] dirs[i] != path@,
        decreases high - low,
    {
        let middle = low + (high - low) / 2;
        let slot = slots[middle];
        let at = rows[slot as usize].path.as_str();
        assert(dirs[middle as int] == at@);
        if same_text(at, path) {
            return Some(middle);
        }
        if precedes(at, path) {
            proof {
                assert forall|i: int| 0 <= i < middle + 1 implies #[trigger] dirs[i] != path@ by {
                    if i < middle && dirs[i] == path@ {
                        assert(text_order::text_before(dirs[i], dirs[middle as int]));
                        text_order::lemma_text_order(at@, path@);
                    }
                }
            }
            low = middle + 1;
        } else {
            proof {
                assert forall|i: int|
                    middle <= i < dirs.len() implies #[trigger] dirs[i] != path@ by {
                    if i > middle && dirs[i] == path@ {
                        assert(text_order::text_before(dirs[middle as int], dirs[i]));
                    }
                }
            }
            high = middle;
        }
    }
    None
}

/// The closest directory above a path, and whether the path stands directly in it.
fn nearest_directory(rows: &Vec<IndexedFile>, slots: &Vec<u32>, path: &str) -> (found: (
    Option<usize>,
    bool,
))
    requires
        text_order::ascending(snapshot::paths_of(rows@, slots@)),
        forall|i: int| 0 <= i < slots@.len() ==> (#[trigger] slots@[i]) < rows@.len(),
    ensures
        ({
            let dirs = snapshot::paths_of(rows@, slots@);
            &&& topology::nearest(dirs, path@) == (match found.0 {
                Some(i) => Some(i as int),
                None => None,
            })
            &&& found.0 matches Some(i) ==> i < dirs.len() && found.1 == (paths::parent_path(path@)
                == Some(dirs[i as int]))
        }),
{
    let ghost dirs = snapshot::paths_of(rows@, slots@);
    let mut at = path.to_owned();
    let mut direct = true;
    loop
        invariant
            dirs == snapshot::paths_of(rows@, slots@),
            text_order::ascending(dirs),
            forall|i: int| 0 <= i < slots@.len() ==> (#[trigger] slots@[i]) < rows@.len(),
            topology::nearest(dirs, at@) == topology::nearest(dirs, path@),
            direct ==> at@ == path@,
            !direct ==> (paths::parent_path(path@) matches Some(up) && !dirs.contains(up)),
        decreases at@.len(),
    {
        match parent(at.as_str()) {
            None => {
                return (None, direct);
            },
            Some(up) => {
                match find_directory(rows, slots, up.as_str()) {
                    Some(i) => {
                        proof {
                            assert(dirs.contains(up@));
                            let first = dirs.index_of(up@);
                            topology::lemma_same_directory(dirs, first, i as int);
                            assert(dirs.contains(dirs[i as int]));
                        }
                        return (Some(i), direct);
                    },
                    None => {
                        direct = false;
                        at = up;
                    },
                }
            },
        }
    }
}

fn zeros(count: usize) -> (numbers: Vec<u64>)
    ensures
        numbers@.len() == count,
        forall|i: int| 0 <= i < count ==> #[trigger] numbers@[i] == 0,
{
    let mut numbers: Vec<u64> = Vec::new();
    while numbers.len() < count
        invariant
            numbers@.len() <= count,
            forall|i: int| 0 <= i < numbers@.len() ==> #[trigger] numbers@[i] == 0,
        decreases count - numbers@.len(),
    {
        numbers.push(0);
    }
    numbers
}

/// The live slots that hold directories.
fn collect_folders<C: Fn() -> bool>(state: &Snapshot, list: &Vec<u32>, cancelled: &C) -> (result:
    Result<Vec<u32>, String>)
    requires
        state.wf(),
        climbing(list@),
        list@.to_set() == state.slots(),
        call_requires(*cancelled, ()),
    ensures
        match result {
            Ok(folders) => climbing(folders@) && folders@.to_set() == folder_slots(*state) && (
            cancellation::always(*cancelled) ==> list@.len() == 0),
            Err(reason) => reason@ == "Query cancelled"@ && call_ensures(*cancelled, (), true),
        },
{
    let mut folders: Vec<u32> = Vec::new();
    let mut next: usize = 0;
    while next < list.len()
        invariant
            next <= list@.len(),
            next > 0 ==> !cancellation::always(*cancelled),
            state.wf(),
            climbing(list@),
            list@.to_set() == state.slots(),
            call_requires(*cancelled, ()),
            climbing(folders@),
            forall|i: int|
                0 <= i < folders@.len() ==> folder_slots(*state).contains(#[trigger] folders@[i]),
            forall|i: int, j: int|
                0 <= i < folders@.len() && next <= j < list@.len() ==> (#[trigger] folders@[i])
                    < (#[trigger] list@[j]),
            forall|j: int|
                0 <= j < next && folder_slots(*state).contains(#[trigger] list@[j])
                    ==> folders@.contains(list@[j]),
        decreases list@.len() - next,
    {
        if cancelled() {
            return Err("Query cancelled".to_owned());
        }
        let slot = list[next];
        assert(list@.to_set().contains(slot));
        assert(state.slots().contains(slot));
        let file = &state.entries[slot as usize];
        if file.is_dir && !file.is_symlink {
            let ghost before = folders@;
            folders.push(slot);
            proof {
                assert(folders@[before.len() as int] == slot);
                assert forall|j: int|
                    0 <= j < next + 1 && folder_slots(*state).contains(
                        #[trigger] list@[j],
                    ) implies folders@.contains(list@[j]) by {
                    if j < next {
                        let k = choose|k: int| 0 <= k < before.len() && before[k] == list@[j];
                        assert(folders@[k] == list@[j]);
                    }
                }
            }
        }
        next = next + 1;
    }
    proof {
        assert forall|t: u32| #[trigger]
            folders@.to_set().contains(t) == folder_slots(*state).contains(t) by {
            if folders@.contains(t) {
                let k = choose|k: int| 0 <= k < folders@.len() && folders@[k] == t;
                assert(folder_slots(*state).contains(folders@[k]));
            }
            if folder_slots(*state).contains(t) {
                assert(list@.to_set().contains(t));
                let j = choose|j: int| 0 <= j < list@.len() && list@[j] == t;
                assert(folder_slots(*state).contains(list@[j]));
            }
        }
        assert(folders@.to_set() =~= folder_slots(*state));
    }
    Ok(folders)
}

impl Hierarchy {
    /// Add what one row adds to its closest directory.
    fn count_row(&mut self, rows: &Vec<IndexedFile>, slot: u32, d: usize, direct: bool, Ghost(
        list,
    ): Ghost<Seq<u32>>)
        requires
            slot < rows@.len(),
            text_order::ascending(snapshot::paths_of(rows@, old(self).directory_slots@)),
            d < old(self).directory_slots@.len(),
            list.len() < usize::MAX,
            ({
                let dirs = snapshot::paths_of(rows@, old(self).directory_slots@);
                let path = rows@[slot as int].path@;
                &&& topology::nearest(dirs, path) == Some(d as int)
                &&& direct == (paths::parent_path(path) == Some(dirs[d as int]))
            }),
            sums_to(
                *old(self),
                rows@,
                list,
                old(self).directory_slots@.len() as int,
            ),
        ensures
            final(self).directory_slots == old(self).directory_slots,
            final(self).parents == old(self).parents,
            sums_to(
                *final(self),
                rows@,
                list.push(slot),
                final(self).directory_slots@.len() as int,
            ),
    {
        let ghost dirs = snapshot::paths_of(rows@, self.directory_slots@);
        let ghost count = dirs.len() as int;
        let ghost before = *self;
        let file = &rows[slot as usize];
        proof {
            topology::lemma_total_bounds(rows@, list, dirs, count, d as int);
            assert(list.push(slot).drop_last() =~= list);
        }
        if file.is_dir && !file.is_symlink {
            let more = self.all_folders[d] + 1;
            self.all_folders.set(d, more);
            if direct {
                let more = self.own_folders[d] + 1;
                self.own_folders.set(d, more);
            }
        } else {
            let more = self.all_files[d] + 1;
            self.all_files.set(d, more);
            if direct {
                let more = self.own_files[d] + 1;
                self.own_files.set(d, more);
            }
            let size = match self.sizes[d] {
                Some(size) => size.checked_add(file.size),
                None => None,
            };
            self.sizes.set(d, size);
        }
        proof {
            assert forall|e: int| 0 <= e < count implies ({
                &&& #[trigger] topology::leads_to(dirs, count, file.path@, e) == (e == d)
                &&& topology::directly_in(dirs, file.path@, e) == (e == d && direct)
            }) by {}
            lemma_counted(before, *self, rows@, list, slot, d as int);
        }
    }
}

/// The sums after one more row was counted.
proof fn lemma_counted(
    before: Hierarchy,
    after: Hierarchy,
    rows: Seq<IndexedFile>,
    list: Seq<u32>,
    slot: u32,
    d: int,
)
    requires
        before.directory_slots == after.directory_slots,
        sums_to(before, rows, list, before.directory_slots@.len() as int),
        0 <= d < before.directory_slots@.len(),
        ({
            let dirs = snapshot::paths_of(rows, before.directory_slots@);
            let count = dirs.len() as int;
            let file = rows[slot as int];
            let folder = topology::is_folder(file);
            let direct = topology::directly_in(dirs, file.path@, d);
            &&& forall|e: int|
                0 <= e < count ==> #[trigger] topology::leads_to(dirs, count, file.path@, e) == (e
                    == d)
            &&& forall|e: int|
                0 <= e < count && e != d ==> !#[trigger] topology::directly_in(dirs, file.path@, e)
            &&& after.all_folders@ == (if folder {
                before.all_folders@.update(d, (before.all_folders@[d] + 1) as u64)
            } else {
                before.all_folders@
            })
            &&& after.own_folders@ == (if folder && direct {
                before.own_folders@.update(d, (before.own_folders@[d] + 1) as u64)
            } else {
                before.own_folders@
            })
            &&& after.all_files@ == (if !folder {
                before.all_files@.update(d, (before.all_files@[d] + 1) as u64)
            } else {
                before.all_files@
            })
            &&& after.own_files@ == (if !folder && direct {
                before.own_files@.update(d, (before.own_files@[d] + 1) as u64)
            } else {
                before.own_files@
            })
            &&& folder ==> after.sizes@ == before.sizes@
            &&& !folder ==> after.sizes@ == before.sizes@.update(
                d,
                match before.sizes@[d] {
                    Some(size) => fitting(size + file.size),
                    None => None,
                },
            )
            &&& before.all_folders@[d] < u64::MAX
            &&& before.own_folders@[d] < u64::MAX
            &&& before.all_files@[d] < u64::MAX
            &&& before.own_files@[d] < u64::MAX
        }),
    ensures
        sums_to(after, rows, list.push(slot), after.directory_slots@.len() as int),
{
    let dirs = snapshot::paths_of(rows, before.directory_slots@);
    let count = dirs.len() as int;
    let more = list.push(slot);
    let file = rows[slot as int];
    assert(more.drop_last() =~= list);
    assert(more.last() == slot);
    assert forall|e: int| 0 <= e < count implies #[trigger] after.own_files@[e] == topology::total(
        rows,
        more,
        dirs,
        count,
        e,
        Tally::OwnFiles,
    ) by {
        assert(before.own_files@[e] == topology::total(
            rows,
            list,
            dirs,
            count,
            e,
            Tally::OwnFiles,
        ));
        assert(e != d ==> !topology::directly_in(dirs, file.path@, e));
    }
    assert forall|e: int| 0 <= e < count implies #[trigger] after.own_folders@[e]
        == topology::total(rows, more, dirs, count, e, Tally::OwnFolders) by {
        assert(before.own_folders@[e] == topology::total(
            rows,
            list,
            dirs,
            count,
            e,
            Tally::OwnFolders,
        ));
        assert(e != d ==> !topology::directly_in(dirs, file.path@, e));
    }
    assert forall|e: int| 0 <= e < count implies #[trigger] after.all_files@[e] == topology::total(
        rows,
        more,
        dirs,
        count,
        e,
        Tally::Files,
    ) by {
        assert(before.all_files@[e] == topology::total(rows, list, dirs, count, e, Tally::Files));
        assert(topology::leads_to(dirs, count, file.path@, e) == (e == d));
    }
    assert forall|e: int| 0 <= e < count implies #[trigger] after.all_folders@[e]
        == topology::total(rows, more, dirs, count, e, Tally::Folders) by {
        assert(before.all_folders@[e] == topology::total(
            rows,
            list,
            dirs,
            count,
            e,
            Tally::Folders,
        ));
        assert(topology::leads_to(dirs, count, file.path@, e) == (e == d));
    }
    assert forall|e: int| 0 <= e < count implies #[trigger] after.sizes@[e] == fitting(
        topology::total(rows, more, dirs, count, e, Tally::Size),
    ) by {
        assert(before.sizes@[e] == fitting(
            topology::total(rows, list, dirs, count, e, Tally::Size),
        ));
        assert(topology::leads_to(dirs, count, file.path@, e) == (e == d));
        topology::lemma_total_bounds(rows, list, dirs, count, e);
    }
}

/// A row without a directory adds nothing.
proof fn lemma_uncounted(tree: Hierarchy, rows: Seq<IndexedFile>, list: Seq<u32>, slot: u32)
    requires
        sums_to(tree, rows, list, tree.directory_slots@.len() as int),
        topology::nearest(
            snapshot::paths_of(rows, tree.directory_slots@),
            rows[slot as int].path@,
        ) is None,
    ensures
        sums_to(tree, rows, list.push(slot), tree.directory_slots@.len() as int),
{
    let dirs = snapshot::paths_of(rows, tree.directory_slots@);
    let count = dirs.len() as int;
    let more = list.push(slot);
    assert(more.drop_last() =~= list);
    assert(more.last() == slot);
    let path = rows[slot as int].path@;
    assert forall|e: int| 0 <= e < count implies !#[trigger] topology::leads_to(
        dirs,
        count,
        path,
        e,
    ) by {}
    assert forall|e: int| 0 <= e < count implies #[trigger] tree.own_files@[e] == topology::total(
        rows,
        more,
        dirs,
        count,
        e,
        Tally::OwnFiles,
    ) by {}
    assert forall|e: int| 0 <= e < count implies #[trigger] tree.own_folders@[e]
        == topology::total(rows, more, dirs, count, e, Tally::OwnFolders) by {}
    assert forall|e: int| 0 <= e < count implies #[trigger] tree.all_files@[e] == topology::total(
        rows,
        more,
        dirs,
        count,
        e,
        Tally::Files,
    ) by {
        assert(!topology::leads_to(dirs, count, path, e));
    }
    assert forall|e: int| 0 <= e < count implies #[trigger] tree.all_folders@[e]
        == topology::total(rows, more, dirs, count, e, Tally::Folders) by {
        assert(!topology::leads_to(dirs, count, path, e));
    }
    assert forall|e: int| 0 <= e < count implies #[trigger] tree.sizes@[e] == fitting(
        topology::total(rows, more, dirs, count, e, Tally::Size),
    ) by {
        assert(!topology::leads_to(dirs, count, path, e));
    }
}

/// Own entries do not depend on the way.
proof fn lemma_own_totals(
    rows: Seq<IndexedFile>,
    list: Seq<u32>,
    dirs: Seq<Seq<char>>,
    a: int,
    b: int,
    d: int,
)
    ensures
        topology::total(rows, list, dirs, a, d, Tally::OwnFiles) == topology::total(
            rows,
            list,
            dirs,
            b,
            d,
            Tally::OwnFiles,
        ),
        topology::total(rows, list, dirs, a, d, Tally::OwnFolders) == topology::total(
            rows,
            list,
            dirs,
            b,
            d,
            Tally::OwnFolders,
        ),
    decreases list.len(),
{
    if list.len() > 0 {
        lemma_own_totals(rows, list.drop_last(), dirs, a, b, d);
    }
}

/// The sums after a directory handed what it holds to its own.
proof fn lemma_handed_up(
    before: Hierarchy,
    after: Hierarchy,
    rows: Seq<IndexedFile>,
    list: Seq<u32>,
    x: int,
)
    requires
        before.directory_slots == after.directory_slots,
        text_order::ascending(snapshot::paths_of(rows, before.directory_slots@)),
        0 <= x < before.directory_slots@.len(),
        sums_to(before, rows, list, x + 1),
        list.len() <= u64::MAX,
        before.own_files == after.own_files,
        before.own_folders == after.own_folders,
        ({
            let dirs = snapshot::paths_of(rows, before.directory_slots@);
            match topology::nearest(dirs, dirs[x]) {
                None => after.all_files@ == before.all_files@ && after.all_folders@
                    == before.all_folders@ && after.sizes@ == before.sizes@,
                Some(p) => {
                    &&& 0 <= p < dirs.len()
                    &&& after.all_files@ == before.all_files@.update(
                        p,
                        (before.all_files@[p] + before.all_files@[x]) as u64,
                    )
                    &&& after.all_folders@ == before.all_folders@.update(
                        p,
                        (before.all_folders@[p] + before.all_folders@[x]) as u64,
                    )
                    &&& after.sizes@ == before.sizes@.update(
                        p,
                        match (before.sizes@[p], before.sizes@[x]) {
                            (Some(a), Some(b)) => fitting(a + b),
                            _ => None,
                        },
                    )
                },
            }
        }),
    ensures
        sums_to(after, rows, list, x),
{
    let dirs = snapshot::paths_of(rows, before.directory_slots@);
    let count = dirs.len() as int;
    let up = topology::nearest(dirs, dirs[x]);
    assert forall|d: int| 0 <= d < count implies #[trigger] after.own_files@[d] == topology::total(
        rows,
        list,
        dirs,
        x,
        d,
        Tally::OwnFiles,
    ) by {
        lemma_own_totals(rows, list, dirs, x, x + 1, d);
        assert(before.own_files@[d] == after.own_files@[d]);
    }
    assert forall|d: int| 0 <= d < count implies #[trigger] after.own_folders@[d]
        == topology::total(rows, list, dirs, x, d, Tally::OwnFolders) by {
        lemma_own_totals(rows, list, dirs, x, x + 1, d);
        assert(before.own_folders@[d] == after.own_folders@[d]);
    }
    assert forall|d: int| 0 <= d < count implies #[trigger] after.all_files@[d] == topology::total(
        rows,
        list,
        dirs,
        x,
        d,
        Tally::Files,
    ) by {
        topology::lemma_total_step(rows, list, dirs, x, d, Tally::Files);
        topology::lemma_total_bounds(rows, list, dirs, x, d);
        assert(before.all_files@[d] == topology::total(
            rows,
            list,
            dirs,
            x + 1,
            d,
            Tally::Files,
        ));
        assert(before.all_files@[x] == topology::total(
            rows,
            list,
            dirs,
            x + 1,
            x,
            Tally::Files,
        ));
    }
    assert forall|d: int| 0 <= d < count implies #[trigger] after.all_folders@[d]
        == topology::total(rows, list, dirs, x, d, Tally::Folders) by {
        topology::lemma_total_step(rows, list, dirs, x, d, Tally::Folders);
        topology::lemma_total_bounds(rows, list, dirs, x, d);
        assert(before.all_folders@[d] == topology::total(
            rows,
            list,
            dirs,
            x + 1,
            d,
            Tally::Folders,
        ));
        assert(before.all_folders@[x] == topology::total(
            rows,
            list,
            dirs,
            x + 1,
            x,
            Tally::Folders,
        ));
    }
    assert forall|d: int| 0 <= d < count implies #[trigger] after.sizes@[d] == fitting(
        topology::total(rows, list, dirs, x, d, Tally::Size),
    ) by {
        topology::lemma_total_step(rows, list, dirs, x, d, Tally::Size);
        topology::lemma_total_bounds(rows, list, dirs, x + 1, d);
        topology::lemma_total_bounds(rows, list, dirs, x + 1, x);
        assert(before.sizes@[d] == fitting(
            topology::total(rows, list, dirs, x + 1, d, Tally::Size),
        ));
        assert(before.sizes@[x] == fitting(
            topology::total(rows, list, dirs, x + 1, x, Tally::Size),
        ));
    }
}

impl Hierarchy {
    /// Hand what a directory holds to its own directory.
    fn hand_up(&mut self, rows: &Vec<IndexedFile>, x: usize, Ghost(list): Ghost<Seq<u32>>)
        requires
            text_order::ascending(snapshot::paths_of(rows@, old(self).directory_slots@)),
            forall|i: int|
                0 <= i < old(self).directory_slots@.len() ==> (#[trigger] old(
                    self,
                ).directory_slots@[i]) < rows@.len(),
            x < old(self).directory_slots@.len(),
            list.len() <= usize::MAX,
            old(self).parents@.len() == rows@.len(),
            as_index(old(self).parents@[old(self).directory_slots@[x as int] as int])
                == topology::nearest(
                snapshot::paths_of(rows@, old(self).directory_slots@),
                snapshot::paths_of(rows@, old(self).directory_slots@)[x as int],
            ),
            sums_to(*old(self), rows@, list, x + 1),
        ensures
            final(self).directory_slots == old(self).directory_slots,
            final(self).parents == old(self).parents,
            sums_to(*final(self), rows@, list, x as int),
    {
        let ghost before = *self;
        let ghost dirs = snapshot::paths_of(rows@, self.directory_slots@);
        let slot = self.directory_slots[x];
        if let Some(up) = self.parents[slot as usize] {
            let p: usize = up as usize;
            proof {
                topology::lemma_nearest(dirs, dirs[x as int]);
                topology::lemma_total_step(rows@, list, dirs, x as int, p as int, Tally::Files);
                topology::lemma_total_step(rows@, list, dirs, x as int, p as int, Tally::Folders);
                topology::lemma_total_bounds(rows@, list, dirs, x as int, p as int);
                assert(self.all_files@[p as int] + self.all_files@[x as int] <= list.len());
                assert(self.all_folders@[p as int] + self.all_folders@[x as int] <= list.len());
            }
            let files = self.all_files[p] + self.all_files[x];
            self.all_files.set(p, files);
            let folders = self.all_folders[p] + self.all_folders[x];
            self.all_folders.set(p, folders);
            let size = match (self.sizes[p], self.sizes[x]) {
                (Some(a), Some(b)) => a.checked_add(b),
                _ => None,
            };
            self.sizes.set(p, size);
        }
        proof {
            lemma_handed_up(before, *self, rows@, list, x as int);
        }
    }

    /// The directories of a snapshot with what they hold.
    pub fn build<C: Fn() -> bool>(state: &Snapshot, cancelled: C) -> (tree: Result<Self, String>)
        requires
            state.wf(),
            call_requires(cancelled, ()),
        ensures
            match tree {
                Ok(built) => built.describes(*state) && (cancellation::always(cancelled)
                    ==> state.slots() == Set::<u32>::empty()),
                Err(reason) => reason@ == "Query cancelled"@ && call_ensures(cancelled, (), true),
            },
    {
        let rows = &state.entries;
        let list = slot_list(&state.live);
        proof {
            assert(list@.len() == 0 ==> list@.to_set() =~= Set::<u32>::empty());
            lemma_slot_sequence(list@, state.slots());
        }
        let folders = match collect_folders(state, &list, &cancelled) {
            Ok(folders) => folders,
            Err(reason) => {
                return Err(reason);
            },
        };
        let ghost by_slot = folders@;
        proof {
            assert forall|slot: u32| #[trigger] folders@.to_set().contains(slot) implies slot
                < rows@.len() by {
                assert(folder_slots(*state).contains(slot));
                assert(state.slots().contains(slot));
            }
            assert(snapshot::different_rows(rows@, folders@.to_set())) by {
                assert forall|a: u32, b: u32|
                    #![trigger folders@.to_set().contains(a), folders@.to_set().contains(b)]
                    folders@.to_set().contains(a) && folders@.to_set().contains(b) && rows@[a
                        + 0].path@ == rows@[b + 0].path@ implies a == b by {
                    assert(folder_slots(*state).contains(a) && folder_slots(*state).contains(b));
                    assert(state.slots().contains(a) && state.slots().contains(b));
                }
            }
        }
        let directory_slots = match sorted_by_path(rows, folders, &cancelled) {
            Ok(sorted) => sorted,
            Err(reason) => {
                return Err(reason);
            },
        };
        let count = directory_slots.len();
        let ghost dirs = snapshot::paths_of(rows@, directory_slots@);
        proof {
            if by_slot.len() > 0 {
                lemma_climbing_bound(by_slot, by_slot.len() - 1);
            }
            assert forall|i: int| 0 <= i < directory_slots@.len() implies (
            #[trigger] directory_slots@[i]) < rows@.len() by {
                assert(directory_slots@.to_set().contains(directory_slots@[i]));
            }
        }
        let mut parents: Vec<Option<u32>> = Vec::new();
        while parents.len() < rows.len()
            invariant
                parents@.len() <= rows@.len(),
            decreases rows@.len() - parents@.len(),
        {
            parents.push(None);
        }
        let mut sizes: Vec<Option<u64>> = Vec::new();
        while sizes.len() < count
            invariant
                sizes@.len() <= count,
                forall|i: int| 0 <= i < sizes@.len() ==> #[trigger] sizes@[i] == Some(0u64),
            decreases count - sizes@.len(),
        {
            sizes.push(Some(0));
        }
        let mut tree = Hierarchy {
            directory_slots,
            parents,
            own_files: zeros(count),
            own_folders: zeros(count),
            all_files: zeros(count),
            all_folders: zeros(count),
            sizes,
        };
        let mut next: usize = 0;
        assert(list@.take(0) =~= Seq::<u32>::empty());
        assert(sums_to(tree, rows@, list@.take(0), count as int));
        while next < list.len()
            invariant
                next <= list@.len(),
                state.wf(),
                rows == &state.entries,
                list@.to_set() == state.slots(),
                climbing(list@),
                call_requires(cancelled, ()),
                tree.directory_slots@.len() == count,
                count <= 0x1_0000_0000,
                dirs == snapshot::paths_of(rows@, tree.directory_slots@),
                text_order::ascending(dirs),
                forall|i: int|
                    0 <= i < tree.directory_slots@.len() ==> (#[trigger] tree.directory_slots@[i])
                        < rows@.len(),
                tree.directory_slots@.to_set() == folder_slots(*state),
                tree.parents@.len() == rows@.len(),
                forall|j: int|
                    0 <= j < next ==> as_index(tree.parents@[#[trigger] list@[j] as int])
                        == topology::nearest(dirs, rows@[list@[j] as int].path@),
                sums_to(tree, rows@, list@.take(next as int), count as int),
            decreases list@.len() - next,
        {
            if cancelled() {
                return Err("Query cancelled".to_owned());
            }
            let slot = list[next];
            let ghost part = list@.take(next + 1);
            assert(list@.to_set().contains(slot));
            assert(state.slots().contains(slot));
            assert(part =~= list@.take(next as int).push(slot));
            let (found, direct) = nearest_directory(
                rows,
                &tree.directory_slots,
                rows[slot as usize].path.as_str(),
            );
            match found {
                Some(d) => {
                    tree.parents.set(slot as usize, Some(d as u32));
                    tree.count_row(rows, slot, d, direct, Ghost(list@.take(next as int)));
                },
                None => {
                    tree.parents.set(slot as usize, None);
                    proof {
                        lemma_uncounted(tree, rows@, list@.take(next as int), slot);
                    }
                },
            }
            proof {
                assert forall|j: int| 0 <= j < next + 1 implies as_index(
                    tree.parents@[#[trigger] list@[j] as int],
                ) == topology::nearest(dirs, rows@[list@[j] as int].path@) by {
                    if j < next {
                        assert(list@[j] < list@[next as int]);
                    }
                }
            }
            next = next + 1;
        }
        assert(list@.take(next as int) =~= list@);
        assert(tree.knows_parents(*state)) by {
            assert forall|slot: u32| #[trigger] state.slots().contains(slot) implies as_index(
                tree.parents@[slot as int],
            ) == topology::nearest(tree.dirs(*state), rows@[slot as int].path@) by {
                assert(list@.to_set().contains(slot));
                let j = choose|j: int| 0 <= j < list@.len() && list@[j] == slot;
                assert(as_index(tree.parents@[list@[j] as int]) == topology::nearest(
                    dirs,
                    rows@[list@[j] as int].path@,
                ));
            }
        }
        let mut left: usize = count;
        assert(list.len() <= usize::MAX);
        while left > 0
            invariant
                left <= count,
                list@.len() <= usize::MAX,
                rows == &state.entries,
                call_requires(cancelled, ()),
                tree.directory_slots@.len() == count,
                tree.lists_directories(*state),
                tree.knows_parents(*state),
                sums_to(tree, rows@, list@, left as int),
            decreases left,
        {
            if cancelled() {
                return Err("Query cancelled".to_owned());
            }
            left = left - 1;
            proof {
                let slot = tree.directory_slots@[left as int];
                assert(tree.directory_slots@.to_set().contains(slot));
                assert(folder_slots(*state).contains(slot));
                assert(state.slots().contains(slot));
            }
            tree.hand_up(rows, left, Ghost(list@));
        }
        Ok(tree)
    }
}

/// Some of a list of paths is the path or lies above it.
pub open spec fn any_at_or_above(list: Seq<Seq<char>>, path: Seq<char>) -> bool {
    exists|i: int| 0 <= i < list.len() && topology::at_or_above(#[trigger] list[i], path)
}

/// The path is one of a list or lies above one of them.
pub open spec fn at_or_above_any(path: Seq<char>, list: Seq<Seq<char>>) -> bool {
    exists|i: int| 0 <= i < list.len() && topology::at_or_above(path, #[trigger] list[i])
}

/// What an index holds of a directory may not be all.
pub open spec fn uncertain(coverage: Coverage, path: Seq<char>) -> bool {
    ||| !coverage.complete
    ||| !any_at_or_above(text::texts(coverage.roots@), path)
    ||| any_at_or_above(text::texts(coverage.uncovered@), path)
    ||| at_or_above_any(path, text::texts(coverage.uncovered@))
}

/// Whether a sorted list has the path or one above it.
fn holds_ancestor(sorted: &Vec<String>, path: &str) -> (found: bool)
    requires
        text_order::ascending(text::texts(sorted@)),
    ensures
        found == any_at_or_above(text::texts(sorted@), path@),
{
    let ghost list = text::texts(sorted@);
    let mut at = path.to_owned();
    loop
        invariant
            list == text::texts(sorted@),
            text_order::ascending(list),
            any_at_or_above(list, path@) == any_at_or_above(list, at@),
        decreases at@.len(),
    {
        if text_order::found_in(sorted, at.as_str()) {
            proof {
                let i = choose|i: int| 0 <= i < list.len() && list[i] == at@;
                assert(topology::at_or_above(list[i], at@));
            }
            return true;
        }
        let ghost here = at@;
        proof {
            assert forall|i: int| 0 <= i < list.len() implies #[trigger] list[i] != here by {
                if list[i] == here {
                    assert(list.contains(here));
                }
            }
        }
        match parent(at.as_str()) {
            None => {
                proof {
                    assert forall|i: int| 0 <= i < list.len() implies !topology::at_or_above(
                        #[trigger] list[i],
                        here,
                    ) by {}
                }
                return false;
            },
            Some(up) => {
                proof {
                    assert forall|i: int| 0 <= i < list.len() implies topology::at_or_above(
                        #[trigger] list[i],
                        here,
                    ) == topology::at_or_above(list[i], up@) by {}
                    if any_at_or_above(list, here) {
                        let i = choose|i: int|
                            0 <= i < list.len() && topology::at_or_above(
                                #[trigger] list[i],
                                here,
                            );
                        assert(topology::at_or_above(list[i], up@));
                    }
                    if any_at_or_above(list, up@) {
                        let i = choose|i: int|
                            0 <= i < list.len() && topology::at_or_above(
                                #[trigger] list[i],
                                up@,
                            );
                        assert(topology::at_or_above(list[i], here));
                    }
                }
                at = up;
            },
        }
    }
}

/// All paths that are one of a list or lie above one, in order.
fn with_ancestors<C: Fn() -> bool>(list: &Vec<String>, cancelled: &C) -> (result: Result<
    Vec<String>,
    String,
>)
    requires
        call_requires(*cancelled, ()),
    ensures
        match result {
            Ok(all) => text_order::ascending(text::texts(all@)) && forall|path: Seq<char>| #[trigger]
                text::texts(all@).contains(path) == at_or_above_any(path, text::texts(list@)),
            Err(reason) => reason@ == "Query cancelled"@ && call_ensures(*cancelled, (), true),
        },
{
    let ghost given = text::texts(list@);
    let mut all: Vec<String> = Vec::new();
    let mut next: usize = 0;
    assert(given.take(0) =~= Seq::<Seq<char>>::empty());
    while next < list.len()
        invariant
            next <= list@.len(),
            given == text::texts(list@),
            call_requires(*cancelled, ()),
            forall|path: Seq<char>| #[trigger]
                text::texts(all@).contains(path) == at_or_above_any(
                    path,
                    given.take(next as int),
                ),
        decreases list@.len() - next,
    {
        if cancelled() {
            return Err("Query cancelled".to_owned());
        }
        let ghost before = text::texts(all@);
        let ghost one = given[next as int];
        let ghost part = given.take(next + 1);
        let mut at = list[next].clone();
        let mut more = true;
        while more
            invariant
                forall|path: Seq<char>| #[trigger]
                    text::texts(all@).contains(path) == (before.contains(path) || (
                    topology::at_or_above(path, one) && !(more && topology::at_or_above(
                        path,
                        at@,
                    )))),
                more ==> topology::at_or_above(at@, one),
                forall|path: Seq<char>| #[trigger]
                    topology::at_or_above(path, at@) && more ==> topology::at_or_above(path, one),
            decreases (if more { at@.len() + 1 } else { 0 }),
        {
            let ghost some = text::texts(all@);
            let ghost here = at@;
            all.push(at.clone());
            let ghost now = text::texts(all@);
            assert(now =~= some.push(here));
            let up = parent(at.as_str());
            match up {
                Some(up) => {
                    at = up;
                },
                None => {
                    more = false;
                },
            }
            proof {
                assert forall|path: Seq<char>| #[trigger]
                    now.contains(path) == (some.contains(path) || path == here) by {
                    if some.contains(path) {
                        let k = choose|k: int| 0 <= k < some.len() && some[k] == path;
                        assert(now[k] == path);
                    }
                    assert(now[some.len() as int] == here);
                    if now.contains(path) {
                        let k = choose|k: int| 0 <= k < now.len() && now[k] == path;
                        if k < some.len() {
                            assert(some[k] == path);
                        }
                    }
                }
                assert forall|path: Seq<char>| #[trigger]
                    text::texts(all@).contains(path) == (before.contains(path) || (
                    topology::at_or_above(path, one) && !(more && topology::at_or_above(
                        path,
                        at@,
                    )))) by {
                    assert(now.contains(path) == (some.contains(path) || path == here));
                    assert(topology::at_or_above(path, here) ==> topology::at_or_above(path, one));
                    if more && path == here && topology::at_or_above(path, at@) {
                        if path != at@ {
                            topology::lemma_above_shorter(path, at@);
                        }
                    }
                }
                if more {
                    assert(topology::at_or_above(at@, here));
                }
                assert forall|path: Seq<char>| #[trigger]
                    topology::at_or_above(path, at@) && more implies topology::at_or_above(
                    path,
                    one,
                ) by {
                    assert(topology::at_or_above(path, here));
                }
            }
        }
        proof {
            assert(part =~= given.take(next as int).push(one));
            assert forall|path: Seq<char>| #[trigger]
                text::texts(all@).contains(path) == at_or_above_any(path, part) by {
                let done = given.take(next as int);
                assert(before.contains(path) == at_or_above_any(path, done));
                if at_or_above_any(path, done) {
                    let k = choose|k: int|
                        0 <= k < done.len() && topology::at_or_above(path, #[trigger] done[k]);
                    assert(part[k] == done[k]);
                }
                if at_or_above_any(path, part) {
                    let k = choose|k: int|
                        0 <= k < part.len() && topology::at_or_above(path, #[trigger] part[k]);
                    if k < done.len() {
                        assert(done[k] == part[k]);
                    }
                }
                assert(part[next as int] == one);
            }
        }
        next = next + 1;
    }
    assert(given.take(next as int) =~= given);
    let ghost made = text::texts(all@);
    let sorted = sort_distinct(all);
    proof {
        text_order::lemma_sorted_exists(made);
    }
    Ok(sorted)
}

impl Hierarchy {
    /// For each directory whether what the index holds of it may not be all.
    pub fn incomplete<C: Fn() -> bool>(
        &self,
        state: &Snapshot,
        coverage: &Coverage,
        cancelled: C,
    ) -> (result: Result<Vec<bool>, String>)
        requires
            self.lists_directories(*state),
            call_requires(cancelled, ()),
        ensures
            match result {
                Ok(flags) => (cancellation::always(cancelled) ==> flags@.len() == 0)
                    && flags@.len() == self.directory_slots@.len() && forall|d: int|
                    0 <= d < flags@.len() ==> #[trigger] flags@[d] == uncertain(
                        *coverage,
                        self.dirs(*state)[d],
                    ),
                Err(reason) => reason@ == "Query cancelled"@ && call_ensures(cancelled, (), true),
            },
    {
        self.incomplete_by(state, coverage, &cancelled)
    }

    pub(crate) fn incomplete_by<C: Fn() -> bool>(
        &self,
        state: &Snapshot,
        coverage: &Coverage,
        cancelled: &C,
    ) -> (result: Result<Vec<bool>, String>)
        requires
            self.lists_directories(*state),
            call_requires(*cancelled, ()),
        ensures
            match result {
                Ok(flags) => (cancellation::always(*cancelled) ==> flags@.len() == 0)
                    && flags@.len() == self.directory_slots@.len() && forall|d: int|
                    0 <= d < flags@.len() ==> #[trigger] flags@[d] == uncertain(
                        *coverage,
                        self.dirs(*state)[d],
                    ),
                Err(reason) => reason@ == "Query cancelled"@ && call_ensures(*cancelled, (), true),
            },
    {
        let roots = sort_distinct(copy_texts(coverage.roots.as_slice()));
        let gaps = sort_distinct(copy_texts(coverage.uncovered.as_slice()));
        let above_gaps = match with_ancestors(&coverage.uncovered, cancelled) {
            Ok(all) => all,
            Err(reason) => {
                return Err(reason);
            },
        };
        let ghost (all_roots, all_gaps) = (
            text::texts(coverage.roots@),
            text::texts(coverage.uncovered@),
        );
        proof {
            text_order::lemma_sorted_exists(all_roots);
            text_order::lemma_sorted_exists(all_gaps);
        }
        let mut flags: Vec<bool> = Vec::new();
        let mut next: usize = 0;
        while next < self.directory_slots.len()
            invariant
                next <= self.directory_slots@.len(),
                next > 0 ==> !cancellation::always(*cancelled),
                self.lists_directories(*state),
                call_requires(*cancelled, ()),
                all_roots == text::texts(coverage.roots@),
                all_gaps == text::texts(coverage.uncovered@),
                text_order::ascending(text::texts(roots@)),
                text_order::ascending(text::texts(gaps@)),
                text_order::ascending(text::texts(above_gaps@)),
                text::texts(roots@).to_set() == all_roots.to_set(),
                text::texts(gaps@).to_set() == all_gaps.to_set(),
                forall|path: Seq<char>| #[trigger]
                    text::texts(above_gaps@).contains(path) == at_or_above_any(path, all_gaps),
                flags@.len() == next,
                forall|d: int|
                    0 <= d < next ==> #[trigger] flags@[d] == uncertain(
                        *coverage,
                        self.dirs(*state)[d],
                    ),
            decreases self.directory_slots@.len() - next,
        {
            if cancelled() {
                return Err("Query cancelled".to_owned());
            }
            let slot = self.directory_slots[next];
            let path = state.entries[slot as usize].path.as_str();
            assert(self.dirs(*state)[next as int] == path@);
            proof {
                lemma_same_members(text::texts(roots@), all_roots, path@);
                lemma_same_members(text::texts(gaps@), all_gaps, path@);
            }
            let covered = holds_ancestor(&roots, path);
            let denied = text_order::found_in(&above_gaps, path) || holds_ancestor(&gaps, path);
            flags.push(!coverage.complete || !covered || denied);
            next = next + 1;
        }
        Ok(flags)
    }
}

proof fn lemma_same_members(a: Seq<Seq<char>>, b: Seq<Seq<char>>, path: Seq<char>)
    requires
        a.to_set() == b.to_set(),
    ensures
        any_at_or_above(a, path) == any_at_or_above(b, path),
{
    assert forall|t: Seq<char>| a.contains(t) == #[trigger] b.contains(t) by {
        assert(a.to_set().contains(t) == a.contains(t));
        assert(b.to_set().contains(t) == b.contains(t));
    }
    if any_at_or_above(a, path) {
        let i = choose|i: int|
            0 <= i < a.len() && topology::at_or_above(#[trigger] a[i], path);
        assert(a.contains(a[i]));
        assert(b.contains(a[i]));
        let j = choose|j: int| 0 <= j < b.len() && b[j] == a[i];
        assert(topology::at_or_above(b[j], path));
    }
    if any_at_or_above(b, path) {
        let j = choose|j: int|
            0 <= j < b.len() && topology::at_or_above(#[trigger] b[j], path);
        assert(b.contains(b[j]));
        let i = choose|i: int| 0 <= i < a.len() && a[i] == b[j];
        assert(topology::at_or_above(a[i], path));
    }
}

/// What is known of a directory. Sizes are sums of logical sizes, not of space on a disk.
#[derive(Clone, Debug)]
pub struct DirectoryInfo {
    pub path: String,
    /// Whether the path is an indexed directory.
    pub indexed: bool,
    /// Whether the index holds everything below it.
    pub complete: bool,
    pub recursive_size: Option<u64>,
    pub indexed_logical_size: Option<u64>,
    pub child_count: u64,
    pub descendant_count: u64,
}

/// What is known of the directory with a path.
pub open spec fn informs(
    info: DirectoryInfo,
    tree: Hierarchy,
    state: Snapshot,
    coverage: Coverage,
    path: Seq<char>,
) -> bool {
    &&& info.path@ == path
    &&& info.indexed == tree.dirs(state).contains(path)
    &&& !info.indexed ==> !info.complete && info.recursive_size is None
    &&& forall|d: int|
        0 <= d < tree.directory_slots@.len() && #[trigger] tree.dirs(state)[d] == path ==> {
            let complete = !uncertain(coverage, path) && tree.sizes@[d] is Some;
            &&& info.complete == complete
            &&& info.recursive_size == (if complete {
                tree.sizes@[d]
            } else {
                None
            })
            &&& info.indexed_logical_size == tree.sizes@[d]
            &&& info.child_count == tree.own_files@[d] + tree.own_folders@[d]
            &&& info.descendant_count == tree.all_files@[d] + tree.all_folders@[d]
        }
}

impl Hierarchy {
    /// What is known of some directories, in the order in which they were asked for.
    pub fn info<C: Fn() -> bool>(
        &self,
        state: &Snapshot,
        coverage: &Coverage,
        asked: &[String],
        cancelled: C,
    ) -> (result: Result<Vec<DirectoryInfo>, String>)
        requires
            state.wf(),
            self.describes(*state),
            call_requires(cancelled, ()),
        ensures
            match result {
                Ok(known) => (cancellation::always(cancelled) ==> asked@.len() == 0)
                    && known@.len() == asked@.len() && forall|i: int|
                    0 <= i < known@.len() ==> informs(
                        #[trigger] known@[i],
                        *self,
                        *state,
                        *coverage,
                        asked@[i]@,
                    ),
                Err(reason) => reason@ == "Query cancelled"@ && call_ensures(cancelled, (), true),
            },
    {
        let flags = match self.incomplete_by(state, coverage, &cancelled) {
            Ok(flags) => flags,
            Err(reason) => {
                return Err(reason);
            },
        };
        let rows = &state.entries;
        let live = slot_list(&state.live);
        let ghost dirs = self.dirs(*state);
        proof {
            lemma_slot_sequence(live@, state.slots());
        }
        assert(live.len() <= usize::MAX);
        let mut known: Vec<DirectoryInfo> = Vec::new();
        let mut next: usize = 0;
        while next < asked.len()
            invariant
                next <= asked@.len(),
                next > 0 ==> !cancellation::always(cancelled),
                self.describes(*state),
                call_requires(cancelled, ()),
                rows == &state.entries,
                live@ == live_slots(*state),
                live@.len() <= usize::MAX,
                dirs == self.dirs(*state),
                flags@.len() == self.directory_slots@.len(),
                forall|d: int|
                    0 <= d < flags@.len() ==> #[trigger] flags@[d] == uncertain(
                        *coverage,
                        dirs[d],
                    ),
                known@.len() == next,
                forall|i: int|
                    0 <= i < known@.len() ==> informs(
                        #[trigger] known@[i],
                        *self,
                        *state,
                        *coverage,
                        asked@[i]@,
                    ),
            decreases asked@.len() - next,
        {
            if cancelled() {
                return Err("Query cancelled".to_owned());
            }
            let path = asked[next].as_str();
            let info = match find_directory(rows, &self.directory_slots, path) {
                Some(d) => {
                    proof {
                        topology::lemma_total_bounds(rows@, live@, dirs, 0, d as int);
                        assert(dirs.contains(dirs[d as int]));
                        assert forall|e: int|
                            0 <= e < self.directory_slots@.len() && #[trigger] dirs[e]
                                == path@ implies e == d by {
                            topology::lemma_same_directory(dirs, e, d as int);
                        }
                    }
                    let complete = !flags[d] && self.sizes[d].is_some();
                    DirectoryInfo {
                        path: path.to_owned(),
                        indexed: true,
                        complete,
                        recursive_size: if complete {
                            self.sizes[d]
                        } else {
                            None
                        },
                        indexed_logical_size: self.sizes[d],
                        child_count: self.own_files[d] + self.own_folders[d],
                        descendant_count: self.all_files[d] + self.all_folders[d],
                    }
                },
                None => {
                    proof {
                        assert forall|e: int|
                            0 <= e < self.directory_slots@.len() implies #[trigger] dirs[e]
                            != path@ by {
                            if dirs[e] == path@ {
                                assert(dirs.contains(path@));
                            }
                        }
                    }
                    DirectoryInfo {
                        path: path.to_owned(),
                        indexed: false,
                        complete: false,
                        recursive_size: None,
                        indexed_logical_size: None,
                        child_count: 0,
                        descendant_count: 0,
                    }
                },
            };
            known.push(info);
            next = next + 1;
        }
        Ok(known)
    }
}

} // verus!
