//! Preparing observations without holding the store.
//!
//! Entries are looked at while the store is free. What was prepared is committed only if neither
//! the store nor the mounts changed in between; otherwise it is prepared again.
use crate::scanner::namespace::among;
use crate::text;
use vstd::prelude::*;

verus! {

/// A preparation is tried so many times.
pub const MAX_ATTEMPTS: u32 = 8;

/// Why a batch was not committed.
#[derive(Debug)]
pub enum PreparationError {
    Cancelled,
    /// The same batch has to be collected again.
    Retry,
    Failure(String),
}

/// What happened while a batch was looked at.
#[derive(Debug)]
pub enum MetadataBatchError {
    Cancelled,
    NamespaceChanged,
    Filesystem(String),
}

/// The numbers of a host's errors that come of a path that leads elsewhere than it did.
#[derive(Clone, Copy, Debug)]
pub struct NamespaceCodes {
    pub again: i32,
    pub missing: i32,
    pub not_a_directory: i32,
    pub too_many_links: i32,
    pub denied: i32,
}

impl NamespaceCodes {
    pub open spec fn has(&self, code: i32) -> bool {
        ||| code == self.again
        ||| code == self.missing
        ||| code == self.not_a_directory
        ||| code == self.too_many_links
        ||| code == self.denied
    }
}

impl MetadataBatchError {
    /// What an error of the host means for a batch: a path that changed, or a failure.
    pub fn from_code(code: i32, codes: &NamespaceCodes, reason: String) -> (problem: Self)
        ensures
            problem == (if codes.has(code) {
                MetadataBatchError::NamespaceChanged
            } else {
                MetadataBatchError::Filesystem(reason)
            }),
    {
        if code == codes.again || code == codes.missing || code == codes.not_a_directory || code
            == codes.too_many_links || code == codes.denied {
            MetadataBatchError::NamespaceChanged
        } else {
            MetadataBatchError::Filesystem(reason)
        }
    }
}

impl PreparationError {
    pub fn from_batch(problem: MetadataBatchError) -> (failed: Self)
        ensures
            match problem {
                MetadataBatchError::Cancelled => failed is Cancelled,
                MetadataBatchError::NamespaceChanged => failed is Retry,
                MetadataBatchError::Filesystem(reason) => failed == PreparationError::Failure(
                    reason,
                ),
            },
    {
        match problem {
            MetadataBatchError::Cancelled => PreparationError::Cancelled,
            MetadataBatchError::NamespaceChanged => PreparationError::Retry,
            MetadataBatchError::Filesystem(reason) => PreparationError::Failure(reason),
        }
    }
}

/// The texts of a list that are not among those seen before, each once.
pub open spec fn unseen(list: Seq<Seq<char>>, seen: Seq<Seq<char>>) -> Seq<Seq<char>>
    decreases list.len(),
{
    if list.len() == 0 {
        list
    } else {
        let before = unseen(list.drop_last(), seen);
        if seen.contains(list.last()) || before.contains(list.last()) {
            before
        } else {
            before.push(list.last())
        }
    }
}

/// The paths that still have to be looked at; they count as seen from now on.
pub fn take_unseen(list: &Vec<String>, seen: &mut Vec<String>) -> (pending: Vec<String>)
    ensures
        text::texts(pending@) == unseen(text::texts(list@), text::texts(old(seen)@)),
        text::texts(final(seen)@) == text::texts(old(seen)@) + text::texts(pending@),
{
    let ghost all = text::texts(list@);
    let ghost first = text::texts(seen@);
    let mut pending: Vec<String> = Vec::new();
    let mut next: usize = 0;
    assert(text::texts(pending@) =~= unseen(all.take(0), first));
    assert(first =~= first + text::texts(pending@));
    while next < list.len()
        invariant
            next <= list@.len(),
            all == text::texts(list@),
            text::texts(pending@) == unseen(all.take(next as int), first),
            text::texts(seen@) == first + text::texts(pending@),
        decreases list@.len() - next,
    {
        let ghost part = all.take(next + 1);
        let ghost before = text::texts(pending@);
        assert(part.drop_last() =~= all.take(next as int));
        assert(part.last() == list@[next as int]@);
        let known = among(seen.as_slice(), list[next].as_str());
        proof {
            let item = list@[next as int]@;
            let both = first + before;
            if known {
                let k = choose|k: int| 0 <= k < both.len() && both[k] == item;
                if k < first.len() {
                    assert(first[k] == item);
                } else {
                    assert(before[k - first.len()] == item);
                }
            }
            if first.contains(item) {
                let k = choose|k: int| 0 <= k < first.len() && first[k] == item;
                assert(both[k] == item);
            }
            if before.contains(item) {
                let k = choose|k: int| 0 <= k < before.len() && before[k] == item;
                assert(both[k + first.len()] == item);
            }
        }
        if !known {
            let ghost earlier = text::texts(seen@);
            seen.push(list[next].clone());
            assert(text::texts(seen@) =~= earlier.push(list@[next as int]@));
            pending.push(list[next].clone());
            assert(text::texts(pending@) =~= before.push(list@[next as int]@));
            assert(text::texts(seen@) =~= first + text::texts(pending@));
        }
        next = next + 1;
    }
    assert(all.take(next as int) =~= all);
    pending
}

/// What follows a preparation.
#[derive(Debug)]
pub enum Attempt {
    Commit,
    /// Prepare once more: the store changed.
    Again,
    Fail(PreparationError),
}

/// What follows a preparation: what was collected under other mounts is never committed, and a
/// store that changed makes it be prepared once more, but not without end. `attempts` counts the
/// preparations before this one.
pub fn after_preparation(
    cancelled: bool,
    mounts_current: bool,
    revision_current: bool,
    attempts: u32,
) -> (next: Attempt)
    ensures
        if cancelled {
            next matches Attempt::Fail(why) && why is Cancelled
        } else if !mounts_current {
            next matches Attempt::Fail(why) && why is Retry
        } else if revision_current {
            next is Commit
        } else if attempts + 1 < MAX_ATTEMPTS {
            next is Again
        } else {
            next matches Attempt::Fail(why) && why is Retry
        },
{
    if cancelled {
        Attempt::Fail(PreparationError::Cancelled)
    } else if !mounts_current {
        Attempt::Fail(PreparationError::Retry)
    } else if revision_current {
        Attempt::Commit
    } else if attempts < MAX_ATTEMPTS - 1 {
        Attempt::Again
    } else {
        Attempt::Fail(PreparationError::Retry)
    }
}

proof fn lemma_unseen(list: Seq<Seq<char>>, seen: Seq<Seq<char>>, path: Seq<char>)
    ensures
        unseen(list, seen).contains(path) ==> list.contains(path) && !seen.contains(path),
        list.contains(path) && !seen.contains(path) ==> unseen(list, seen).contains(path),
    decreases list.len(),
{
    if list.len() > 0 {
        let head = list.drop_last();
        let before = unseen(head, seen);
        lemma_unseen(head, seen, path);
        assert(list =~= head.push(list.last()));
        if list.contains(path) && path != list.last() {
            let k = choose|k: int| 0 <= k < list.len() && list[k] == path;
            assert(head[k] == path);
        }
        if head.contains(path) {
            let k = choose|k: int| 0 <= k < head.len() && head[k] == path;
            assert(list[k] == path);
        }
        assert(list[list.len() - 1] == list.last());
        let more = before.push(list.last());
        assert(more[before.len() as int] == list.last());
        if before.contains(path) {
            let k = choose|k: int| 0 <= k < before.len() && before[k] == path;
            assert(more[k] == path);
        }
        if more.contains(path) && path != list.last() {
            let k = choose|k: int| 0 <= k < more.len() && more[k] == path;
            assert(before[k] == path);
        }
    }
}

/// Every path is looked at once: what was seen is not pending again, and nothing that was not
/// seen is passed over.
pub proof fn law_every_path_is_looked_at_once(
    list: Seq<Seq<char>>,
    seen: Seq<Seq<char>>,
    path: Seq<char>,
)
    ensures
        unseen(list, seen).contains(path) == (list.contains(path) && !seen.contains(path)),
        !unseen(list, seen + unseen(list, seen)).contains(path),
{
    lemma_unseen(list, seen, path);
    let now = unseen(list, seen);
    let more = seen + now;
    lemma_unseen(list, more, path);
    if now.contains(path) {
        let k = choose|k: int| 0 <= k < now.len() && now[k] == path;
        assert(more[k + seen.len()] == path);
    }
    if seen.contains(path) {
        let k = choose|k: int| 0 <= k < seen.len() && seen[k] == path;
        assert(more[k] == path);
    }
}

} // verus!
