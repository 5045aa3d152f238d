//! The other entries of a file object, looked at again when one entry changed.
use crate::scanner::entry;
use crate::scanner::entry::{ObjectState, ScannedFile};
use crate::text;
use crate::text::same_text;
use vstd::prelude::*;

verus! {

/// What looking at the entries of changed objects found.
#[derive(Debug)]
pub struct LinkVerification {
    pub entries: Vec<ScannedFile>,
    pub removed: Vec<String>,
    pub unavailable: Vec<String>,
}

/// What looking at one entry found.
#[derive(Debug)]
pub enum LinkOutcome {
    Found(ScannedFile),
    Removed,
    Unavailable(String),
}

/// What an attempt to look at an entry means. An entry is removed only if the host says that it
/// is not there and its directory can be read; otherwise it is unavailable.
pub fn link_outcome(
    looked: Result<ScannedFile, String>,
    not_found: bool,
    parent_accessible: bool,
) -> (outcome: LinkOutcome)
    ensures
        match looked {
            Ok(file) => outcome == LinkOutcome::Found(file),
            Err(reason) => if not_found && parent_accessible {
                outcome is Removed
            } else {
                outcome == LinkOutcome::Unavailable(reason)
            },
        },
{
    match looked {
        Ok(file) => LinkOutcome::Found(file),
        Err(reason) => if not_found && parent_accessible {
            LinkOutcome::Removed
        } else {
            LinkOutcome::Unavailable(reason)
        },
    }
}

impl LinkVerification {
    pub fn new() -> (found: Self)
        ensures
            found.entries@.len() == 0,
            found.removed@.len() == 0,
            found.unavailable@.len() == 0,
    {
        LinkVerification { entries: Vec::new(), removed: Vec::new(), unavailable: Vec::new() }
    }

    /// Note what was found at a path; gives the diagnostic of an unavailable one.
    pub fn record(&mut self, path: String, outcome: LinkOutcome) -> (problem: Option<String>)
        ensures
            match outcome {
                LinkOutcome::Found(file) => {
                    &&& problem is None
                    &&& final(self).entries@ == old(self).entries@.push(file)
                    &&& final(self).removed@ == old(self).removed@
                    &&& final(self).unavailable@ == old(self).unavailable@
                },
                LinkOutcome::Removed => {
                    &&& problem is None
                    &&& final(self).entries@ == old(self).entries@
                    &&& final(self).removed@ == old(self).removed@.push(path)
                    &&& final(self).unavailable@ == old(self).unavailable@
                },
                LinkOutcome::Unavailable(reason) => {
                    &&& problem == Some(reason)
                    &&& final(self).entries@ == old(self).entries@
                    &&& final(self).removed@ == old(self).removed@
                    &&& final(self).unavailable@ == old(self).unavailable@.push(path)
                },
            },
    {
        match outcome {
            LinkOutcome::Found(file) => {
                self.entries.push(file);
                None
            },
            LinkOutcome::Removed => {
                self.removed.push(path);
                None
            },
            LinkOutcome::Unavailable(reason) => {
                self.unavailable.push(path);
                Some(reason)
            },
        }
    }
}

/// An entry of an object other than a directory.
pub open spec fn is_of(file: ScannedFile, volume: Seq<char>, id: u64) -> bool {
    !file.is_dir && id != 0 && file.file_id == id && file.volume_id@ == volume
}

/// The state of an object by the last entry of it.
pub open spec fn last_state(files: Seq<ScannedFile>, volume: Seq<char>, id: u64) -> Option<
    ObjectState,
>
    decreases files.len(),
{
    if files.len() == 0 {
        None
    } else if is_of(files.last(), volume, id) {
        Some(files.last()@.state)
    } else {
        last_state(files.drop_last(), volume, id)
    }
}

/// An entry with the state of its object.
pub open spec fn with_state(file: entry::EntryView, state: Option<ObjectState>) -> entry::EntryView {
    match state {
        Some(state) => entry::EntryView { state, ..file },
        None => file,
    }
}

fn find_state(files: &Vec<ScannedFile>, volume: &str, id: u64) -> (state: Option<ObjectState>)
    ensures
        state == last_state(files@, volume@, id),
{
    let mut left = files.len();
    assert(files@.take(left as int) =~= files@);
    while left > 0
        invariant
            left <= files@.len(),
            last_state(files@, volume@, id) == last_state(files@.take(left as int), volume@, id),
        decreases left,
    {
        let ghost part = files@.take(left as int);
        assert(part.drop_last() =~= files@.take(left - 1));
        left = left - 1;
        let file = &files[left];
        assert(part.last() == *file);
        if !file.is_dir && id != 0 && file.file_id == id && same_text(
            file.volume_id.as_str(),
            volume,
        ) {
            return Some(
                ObjectState {
                    size: file.size,
                    modified: file.modified,
                    changed: file.changed,
                    created: file.created,
                    modified_ns: file.modified_ns,
                    changed_ns: file.changed_ns,
                    flags: file.flags,
                },
            );
        }
    }
    None
}

/// Every entry was looked at on its own, and the object may have been written in between: give
/// all entries of an object the state that was read last.
pub fn share_object_state(files: &mut Vec<ScannedFile>)
    ensures
        final(files)@.len() == old(files)@.len(),
        forall|i: int|
            0 <= i < final(files)@.len() ==> (#[trigger] final(files)@[i])@ == with_state(
                old(files)@[i]@,
                last_state(old(files)@, old(files)@[i].volume_id@, old(files)@[i].file_id),
            ),
{
    let ghost before = files@;
    let mut states: Vec<Option<ObjectState>> = Vec::new();
    while states.len() < files.len()
        invariant
            states@.len() <= files@.len(),
            files@ == before,
            forall|i: int|
                0 <= i < states@.len() ==> #[trigger] states@[i] == last_state(
                    before,
                    before[i].volume_id@,
                    before[i].file_id,
                ),
        decreases files@.len() - states@.len(),
    {
        let next = states.len();
        let state = find_state(files, files[next].volume_id.as_str(), files[next].file_id);
        states.push(state);
    }
    let mut next: usize = 0;
    while next < files.len()
        invariant
            next <= files@.len(),
            files@.len() == before.len(),
            states@.len() == before.len(),
            forall|i: int|
                0 <= i < states@.len() ==> #[trigger] states@[i] == last_state(
                    before,
                    before[i].volume_id@,
                    before[i].file_id,
                ),
            forall|i: int| next <= i < files@.len() ==> #[trigger] files@[i] == before[i],
            forall|i: int|
                0 <= i < next ==> (#[trigger] files@[i])@ == with_state(before[i]@, states@[i]),
        decreases files@.len() - next,
    {
        if let Some(state) = states[next] {
            let file = &mut files[next];
            file.size = state.size;
            file.modified = state.modified;
            file.changed = state.changed;
            file.created = state.created;
            file.modified_ns = state.modified_ns;
            file.changed_ns = state.changed_ns;
            file.flags = state.flags;
        }
        next = next + 1;
    }
}

proof fn lemma_state_known(files: Seq<ScannedFile>, i: int)
    requires
        0 <= i < files.len(),
        !files[i].is_dir,
        files[i].file_id != 0,
    ensures
        last_state(files, files[i].volume_id@, files[i].file_id) is Some,
    decreases files.len(),
{
    if !is_of(files.last(), files[i].volume_id@, files[i].file_id) {
        lemma_state_known(files.drop_last(), i);
    }
}

/// After sharing, all entries of one object say the same of it, and nothing else of an entry is
/// different.
pub proof fn law_entries_of_one_object_agree(
    before: Seq<ScannedFile>,
    after: Seq<ScannedFile>,
    i: int,
    j: int,
)
    requires
        after.len() == before.len(),
        forall|k: int|
            0 <= k < after.len() ==> (#[trigger] after[k])@ == with_state(
                before[k]@,
                last_state(before, before[k].volume_id@, before[k].file_id),
            ),
        0 <= i < before.len(),
        0 <= j < before.len(),
        before[i].file_id != 0,
        before[i].file_id == before[j].file_id,
        before[i].volume_id@ == before[j].volume_id@,
        !before[i].is_dir,
    ensures
        after[i]@.state == after[j]@.state,
        after[i]@.path == before[i]@.path,
        after[i]@.name == before[i]@.name,
{
    lemma_state_known(before, i);
    assert(after[i]@ == with_state(
        before[i]@,
        last_state(before, before[i].volume_id@, before[i].file_id),
    ));
    assert(after[j]@ == with_state(
        before[j]@,
        last_state(before, before[j].volume_id@, before[j].file_id),
    ));
}

/// Prepared observations by which a commit is answered.
pub struct PreparedLinks {
    pub available: Vec<ScannedFile>,
    pub removed: Vec<String>,
    pub unavailable: Vec<String>,
}

/// The last prepared entry with a path.
pub open spec fn prepared_entry(files: Seq<ScannedFile>, path: Seq<char>) -> Option<ScannedFile>
    decreases files.len(),
{
    if files.len() == 0 {
        None
    } else if files.last().path@ == path {
        Some(files.last())
    } else {
        prepared_entry(files.drop_last(), path)
    }
}

/// What was prepared for a path.
#[derive(Debug)]
pub enum Prepared {
    Entry(usize),
    Removed,
    Unavailable,
}

impl PreparedLinks {
    /// What was prepared for a path. A path that nothing was prepared for makes the commit fail.
    pub fn answer(&self, path: &str) -> (result: Result<Prepared, String>)
        ensures
            match result {
                Ok(Prepared::Entry(i)) => i < self.available@.len() && prepared_entry(
                    self.available@,
                    path@,
                ) == Some(self.available@[i as int]),
                Ok(Prepared::Removed) => prepared_entry(self.available@, path@) is None
                    && text::texts(self.removed@).contains(path@),
                Ok(Prepared::Unavailable) => prepared_entry(self.available@, path@) is None
                    && !text::texts(self.removed@).contains(path@) && text::texts(
                    self.unavailable@,
                ).contains(path@),
                Err(reason) => reason@ == "Incomplete prepared alias closure"@ && prepared_entry(
                    self.available@,
                    path@,
                ) is None && !text::texts(self.removed@).contains(path@) && !text::texts(
                    self.unavailable@,
                ).contains(path@),
            },
    {
        let mut left = self.available.len();
        assert(self.available@.take(left as int) =~= self.available@);
        while left > 0
            invariant
                left <= self.available@.len(),
                prepared_entry(self.available@, path@) == prepared_entry(
                    self.available@.take(left as int),
                    path@,
                ),
            decreases left,
        {
            let ghost part = self.available@.take(left as int);
            assert(part.drop_last() =~= self.available@.take(left - 1));
            left = left - 1;
            assert(part.last() == self.available@[left as int]);
            if same_text(self.available[left].path.as_str(), path) {
                return Ok(Prepared::Entry(left));
            }
        }
        if crate::scanner::namespace::among(self.removed.as_slice(), path) {
            return Ok(Prepared::Removed);
        }
        if crate::scanner::namespace::among(self.unavailable.as_slice(), path) {
            return Ok(Prepared::Unavailable);
        }
        Err("Incomplete prepared alias closure".to_owned())
    }
}

} // verus!
