//! What a pass over part of the filesystem means for the index.
use crate::engine::errors;
use crate::engine::errors::discard_removed_path_errors;
use crate::paths;
use crate::paths::{parent, starts_with};
use crate::scanner::entry::ScannedFile;
use crate::scanner::namespace::among;
use crate::scanner::selection;
use crate::scanner::traversal::ScanReport;
use crate::text;
use crate::text::{append_texts, copy_texts, keep_texts};
use crate::text_order;
use crate::text_order::sort_distinct;
use vstd::prelude::*;

verus! {

/// Publishing the index of a first scan while it grows: in steps about as large as half of what
/// is already published.
pub open spec fn publish_threshold(indexed: int) -> int {
    if indexed / 2 > 10_000 {
        indexed / 2
    } else {
        10_000
    }
}

pub fn progressive_publish_threshold(indexed_count: usize) -> (threshold: usize)
    ensures
        threshold == publish_threshold(indexed_count as int),
{
    let half: usize = indexed_count / 2;
    if half > 10_000 {
        half
    } else {
        10_000
    }
}

/// The least time between two publications, in milliseconds.
pub const PUBLISH_DELAY: u64 = 2_000;

/// How far a pass has come.
#[derive(Clone, Copy, Debug)]
pub struct Progress {
    pub initial: bool,
    /// Rows that changed since the last publication.
    pub changed: u64,
    /// Entries that were looked at, other entries of their objects included.
    pub processed: u64,
    pub threshold: usize,
    pub delay: u64,
}

impl Progress {
    pub fn start(initial: bool, indexed: usize) -> (progress: Self)
        ensures
            progress == (Progress {
                initial,
                changed: 0,
                processed: 0,
                threshold: publish_threshold(indexed as int) as usize,
                delay: PUBLISH_DELAY,
            }),
    {
        Progress {
            initial,
            changed: 0,
            processed: 0,
            threshold: progressive_publish_threshold(indexed),
            delay: PUBLISH_DELAY,
        }
    }

    /// A batch was committed: `changed` rows of `entries` entries and `linked` others.
    pub fn committed(&mut self, entries: u64, linked: u64, changed: u64)
        requires
            old(self).processed + entries + linked <= u64::MAX,
            old(self).changed + changed <= u64::MAX,
        ensures
            *final(self) == (Progress {
                changed: (old(self).changed + changed) as u64,
                processed: (old(self).processed + entries + linked) as u64,
                ..*old(self)
            }),
    {
        self.changed = self.changed + changed;
        self.processed = self.processed + entries + linked;
    }

    /// Whether what was found so far is to be published, `elapsed` milliseconds after the last
    /// publication.
    pub fn should_publish(&self, elapsed: u64) -> (yes: bool)
        ensures
            yes == (self.initial && self.changed >= self.threshold && elapsed >= self.delay),
    {
        self.initial && self.changed >= self.threshold as u64 && elapsed >= self.delay
    }

    /// A publication took `taken` milliseconds. Building the index takes at most a fifth of the
    /// time until the next one.
    pub fn published(&mut self, taken: u64, indexed: usize)
        requires
            taken * 5 <= u64::MAX,
        ensures
            *final(self) == (Progress {
                changed: 0,
                threshold: publish_threshold(indexed as int) as usize,
                delay: if taken * 5 > PUBLISH_DELAY {
                    (taken * 5) as u64
                } else {
                    PUBLISH_DELAY
                },
                ..*old(self)
            }),
    {
        let five: u64 = taken * 5;
        self.delay = if five > PUBLISH_DELAY {
            five
        } else {
            PUBLISH_DELAY
        };
        self.threshold = progressive_publish_threshold(indexed);
        self.changed = 0;
    }
}

/// Entries outside a directory.
pub open spec fn outside(files: Seq<ScannedFile>, directory: Seq<char>) -> Seq<ScannedFile>
    decreases files.len(),
{
    if files.len() == 0 {
        files
    } else {
        let before = outside(files.drop_last(), directory);
        if paths::path_starts_with(files.last().path@, directory) {
            before
        } else {
            before.push(files.last())
        }
    }
}

/// The index's own files are not indexed: writing them would never end.
pub fn without_own_files(batch: Vec<ScannedFile>, index_directory: &str) -> (kept: Vec<ScannedFile>)
    ensures
        kept@ == outside(batch@, index_directory@),
{
    let ghost all = batch@;
    let mut rest = batch;
    let mut turned: Vec<ScannedFile> = Vec::new();
    while rest.len() > 0
        invariant
            rest@.len() + turned@.len() == all.len(),
            rest@ == all.take(rest@.len() as int),
            forall|i: int|
                0 <= i < turned@.len() ==> #[trigger] turned@[i] == all[all.len() - 1 - i],
        decreases rest@.len(),
    {
        let ghost count = rest@.len() as int;
        if let Some(file) = rest.pop() {
            assert(file == all[count - 1]);
            turned.push(file);
            assert(rest@ =~= all.take(count - 1));
        }
    }
    let ghost backwards = turned@;
    let ghost mut done: int = 0;
    let mut kept: Vec<ScannedFile> = Vec::new();
    assert(all.take(0) =~= Seq::<ScannedFile>::empty());
    while turned.len() > 0
        invariant
            backwards.len() == all.len(),
            forall|i: int|
                0 <= i < backwards.len() ==> #[trigger] backwards[i] == all[all.len() - 1 - i],
            done + turned@.len() == all.len(),
            0 <= done,
            turned@ == backwards.take(turned@.len() as int),
            kept@ == outside(all.take(done), index_directory@),
        decreases turned@.len(),
    {
        let ghost count = turned@.len() as int;
        if let Some(file) = turned.pop() {
            let ghost part = all.take(done + 1);
            assert(file == backwards[count - 1]);
            assert(part.last() == file);
            assert(part.drop_last() =~= all.take(done));
            if !starts_with(file.path.as_str(), index_directory) {
                kept.push(file);
            }
            proof {
                done = done + 1;
            }
            assert(turned@ =~= backwards.take(count - 1));
        }
    }
    assert(all.take(done) =~= all);
    kept
}

/// One of some roots is the path or above it.
pub open spec fn under_any(path: Seq<char>, roots: Seq<Seq<char>>) -> bool {
    exists|i: int| 0 <= i < roots.len() && paths::path_starts_with(path, #[trigger] roots[i])
}

fn is_under(path: &str, roots: &[String]) -> (yes: bool)
    ensures
        yes == under_any(path@, text::texts(roots@)),
{
    let ghost all = text::texts(roots@);
    let mut next: usize = 0;
    while next < roots.len()
        invariant
            next <= roots@.len(),
            all == text::texts(roots@),
            forall|i: int| 0 <= i < next ==> !paths::path_starts_with(path@, #[trigger] all[i]),
        decreases roots@.len() - next,
    {
        assert(all[next as int] == roots@[next as int]@);
        if starts_with(path, roots[next].as_str()) {
            return true;
        }
        next = next + 1;
    }
    false
}

/// The closest ancestor of a path that is there, as far as the roots reach.
pub open spec fn standing_above(
    path: Seq<char>,
    roots: Seq<Seq<char>>,
    stands: spec_fn(Seq<char>) -> bool,
) -> Option<Seq<char>>
    decreases path.len(),
{
    match paths::parent_path(path) {
        Some(up) => if up.len() >= path.len() || !under_any(up, roots) {
            None
        } else if stands(up) {
            Some(up)
        } else {
            standing_above(up, roots, stands)
        },
        None => None,
    }
}

/// A path that could not be looked at is removed: it is no chosen root, it is not there, and
/// the closest ancestor that is there can be read.
pub open spec fn is_removed(
    path: Seq<char>,
    roots: Seq<Seq<char>>,
    gone: spec_fn(Seq<char>) -> bool,
    stands: spec_fn(Seq<char>) -> bool,
    readable: spec_fn(Seq<char>) -> bool,
) -> bool {
    !roots.contains(path) && gone(path) && (standing_above(path, roots, stands) matches Some(standing)
        && readable(standing))
}

fn find_standing<S: Fn(&str) -> bool>(path: &str, roots: &[String], stands: &S) -> (standing: Option<
    String,
>)
    requires
        forall|p: &str| #[trigger] call_requires(*stands, (p,)),
    ensures
        forall|s: spec_fn(Seq<char>) -> bool| #[trigger]
            selection::agrees(*stands, s) ==> standing_above(path@, text::texts(roots@), s) == (
            match standing {
                Some(found) => Some(found@),
                None => None,
            }),
{
    let mut at = path.to_owned();
    loop
        invariant
            forall|p: &str| #[trigger] call_requires(*stands, (p,)),
            forall|s: spec_fn(Seq<char>) -> bool| #[trigger]
                selection::agrees(*stands, s) ==> standing_above(path@, text::texts(roots@), s)
                    == standing_above(at@, text::texts(roots@), s),
        decreases at@.len(),
    {
        proof {
            paths::lemma_parent_shorter(at@);
        }
        let up = match parent(at.as_str()) {
            Some(up) => up,
            None => {
                return None;
            },
        };
        if !is_under(up.as_str(), roots) {
            return None;
        }
        if stands(up.as_str()) {
            return Some(up);
        }
        at = up;
    }
}

/// Part some paths into those that are still uncovered and those that are removed.
fn part_removed<G: Fn(&str) -> bool, S: Fn(&str) -> bool, R: Fn(&str) -> bool>(
    list: &Vec<String>,
    roots: &[String],
    gone: &G,
    stands: &S,
    readable: &R,
) -> (parts: (Vec<String>, Vec<String>))
    requires
        forall|p: &str| #[trigger] call_requires(*gone, (p,)),
        forall|p: &str| #[trigger] call_requires(*stands, (p,)),
        forall|p: &str| #[trigger] call_requires(*readable, (p,)),
    ensures
        forall|
            g: spec_fn(Seq<char>) -> bool,
            s: spec_fn(Seq<char>) -> bool,
            r: spec_fn(Seq<char>) -> bool,
        | #[trigger]
            selection::agrees(*gone, g) && #[trigger] selection::agrees(*stands, s)
                && #[trigger] selection::agrees(*readable, r) ==> text::texts(parts.0@)
                == text::kept_texts(
                text::texts(list@),
                |path: Seq<char>| !is_removed(path, text::texts(roots@), g, s, r),
            ) && text::texts(parts.1@) == text::kept_texts(
                text::texts(list@),
                |path: Seq<char>| is_removed(path, text::texts(roots@), g, s, r),
            ),
{
    let ghost all = text::texts(list@);
    let ghost bounds = text::texts(roots@);
    let mut kept: Vec<String> = Vec::new();
    let mut removed: Vec<String> = Vec::new();
    let mut next: usize = 0;
    assert(text::texts(kept@) =~= Seq::<Seq<char>>::empty());
    assert(text::texts(removed@) =~= Seq::<Seq<char>>::empty());
    assert(all.take(0) =~= Seq::<Seq<char>>::empty());
    while next < list.len()
        invariant
            next <= list@.len(),
            all == text::texts(list@),
            bounds == text::texts(roots@),
            forall|p: &str| #[trigger] call_requires(*gone, (p,)),
            forall|p: &str| #[trigger] call_requires(*stands, (p,)),
            forall|p: &str| #[trigger] call_requires(*readable, (p,)),
            forall|
                g: spec_fn(Seq<char>) -> bool,
                s: spec_fn(Seq<char>) -> bool,
                r: spec_fn(Seq<char>) -> bool,
            | #[trigger]
                selection::agrees(*gone, g) && #[trigger] selection::agrees(*stands, s)
                    && #[trigger] selection::agrees(*readable, r) ==> text::texts(kept@)
                    == text::kept_texts(
                    all.take(next as int),
                    |path: Seq<char>| !is_removed(path, bounds, g, s, r),
                ) && text::texts(removed@) == text::kept_texts(
                    all.take(next as int),
                    |path: Seq<char>| is_removed(path, bounds, g, s, r),
                ),
        decreases list@.len() - next,
    {
        let path = list[next].as_str();
        let ghost part = all.take(next + 1);
        let ghost (stay, leave) = (text::texts(kept@), text::texts(removed@));
        assert(part.drop_last() =~= all.take(next as int));
        assert(part.last() == path@);
        let mut missing = false;
        if !among(roots, path) {
            if gone(path) {
                if let Some(standing) = find_standing(path, roots, stands) {
                    missing = readable(standing.as_str());
                }
            }
        }
        if missing {
            removed.push(path.to_owned());
            assert(text::texts(removed@) =~= leave.push(path@));
        } else {
            kept.push(path.to_owned());
            assert(text::texts(kept@) =~= stay.push(path@));
        }
        proof {
            assert forall|
                g: spec_fn(Seq<char>) -> bool,
                s: spec_fn(Seq<char>) -> bool,
                r: spec_fn(Seq<char>) -> bool,
            | #[trigger]
                selection::agrees(*gone, g) && #[trigger] selection::agrees(*stands, s)
                    && #[trigger] selection::agrees(*readable, r) implies text::texts(kept@)
                == text::kept_texts(
                part,
                |path: Seq<char>| !is_removed(path, bounds, g, s, r),
            ) && text::texts(removed@) == text::kept_texts(
                part,
                |path: Seq<char>| is_removed(path, bounds, g, s, r),
            ) by {
                let stays = |path: Seq<char>| !is_removed(path, bounds, g, s, r);
                let goes = |path: Seq<char>| is_removed(path, bounds, g, s, r);
                assert(stay == text::kept_texts(all.take(next as int), stays));
                assert(leave == text::kept_texts(all.take(next as int), goes));
                assert(is_removed(path@, bounds, g, s, r) == missing);
                assert(stays(path@) == !missing);
                assert(goes(path@) == missing);
            }
        }
        next = next + 1;
    }
    assert(all.take(next as int) =~= all);
    (kept, removed)
}

/// A pass over part of the filesystem: the whole of some scopes, or only some entries; the first
/// one, or one that brings the index up to date.
#[derive(Debug)]
pub struct Pass {
    pub roots: Vec<String>,
    pub configured: Vec<String>,
    pub recursive: bool,
    pub initial: bool,
}

/// What looking at the other entries of changed objects came to.
#[derive(Debug)]
pub struct Links {
    pub cancelled: bool,
    pub uncovered: Vec<String>,
    pub errors: Vec<String>,
}

/// What a pass means for the index.
#[derive(Debug)]
pub struct Conclusion {
    /// The scopes whose unobserved rows are removed, and those that keep theirs. A cancelled
    /// pass removes nothing.
    pub finish: Option<(Vec<String>, Vec<String>)>,
    pub uncovered: Vec<String>,
    pub errors: Vec<String>,
    /// Whether a new snapshot is published, and if so whether with a checkpoint on disk.
    pub refresh: Option<bool>,
    pub state: Option<&'static str>,
    pub complete: bool,
}

/// The paths that a pass removed.
pub open spec fn removals(
    pass: Pass,
    uncovered: Seq<Seq<char>>,
    gone: spec_fn(Seq<char>) -> bool,
    stands: spec_fn(Seq<char>) -> bool,
    readable: spec_fn(Seq<char>) -> bool,
) -> Seq<Seq<char>> {
    if pass.initial {
        Seq::empty()
    } else {
        text::kept_texts(
            uncovered,
            |path: Seq<char>|
                is_removed(path, text::texts(pass.configured@), gone, stands, readable),
        )
    }
}

/// The paths that a pass could not look at and did not remove.
pub open spec fn denials(
    pass: Pass,
    uncovered: Seq<Seq<char>>,
    gone: spec_fn(Seq<char>) -> bool,
    stands: spec_fn(Seq<char>) -> bool,
    readable: spec_fn(Seq<char>) -> bool,
) -> Seq<Seq<char>> {
    if pass.initial {
        uncovered
    } else {
        text::kept_texts(
            uncovered,
            |path: Seq<char>|
                !is_removed(path, text::texts(pass.configured@), gone, stands, readable),
        )
    }
}

/// The gaps of the index after a pass. Only a whole scope, wholly scanned, closes a gap.
pub open spec fn gaps_after(
    pass: Pass,
    stored: Seq<Seq<char>>,
    denied: Seq<Seq<char>>,
    cancelled: bool,
) -> Seq<Seq<char>> {
    text_order::sorted_distinct(
        text::kept_texts(
            stored,
            |path: Seq<char>|
                cancelled || !pass.recursive || !under_any(path, text::texts(pass.roots@)),
        ) + denied,
    )
}

/// The state that a pass goes.
pub open spec fn state_after(initial: bool, cancelled: bool) -> Option<Seq<char>> {
    if cancelled {
        Some("cancelled"@)
    } else if initial {
        Some("ready"@)
    } else {
        None
    }
}

/// What a pass means for the index.
pub open spec fn concludes(
    done: Conclusion,
    pass: Pass,
    report: ScanReport,
    links: Links,
    stored: Seq<Seq<char>>,
    stopped: bool,
    gone: spec_fn(Seq<char>) -> bool,
    stands: spec_fn(Seq<char>) -> bool,
    readable: spec_fn(Seq<char>) -> bool,
) -> bool {
    let cancelled = report.cancelled || links.cancelled;
    let uncovered = text::texts(report.uncovered@) + text::texts(links.uncovered@);
    let removed = removals(pass, uncovered, gone, stands, readable);
    let denied = denials(pass, uncovered, gone, stands, readable);
    let told = text::texts(report.errors@) + text::texts(links.errors@);
    &&& match done.finish {
        Some((scopes, kept)) => {
            &&& !cancelled
            &&& text::texts(scopes@) == (if pass.recursive {
                text::texts(pass.roots@)
            } else {
                Seq::empty()
            }) + removed
            &&& text::texts(kept@) == denied + text::texts(report.excluded_mounts@)
        },
        None => cancelled,
    }
    &&& text::texts(done.uncovered@) == gaps_after(pass, stored, denied, cancelled)
    &&& text::texts(done.errors@) == text::kept_texts(
        told,
        |error: Seq<char>| !errors::tells_of_any(error, removed),
    )
    &&& done.refresh == (if cancelled && stopped {
        None
    } else {
        Some(pass.initial && !cancelled)
    })
    &&& match state_after(pass.initial, cancelled) {
        Some(state) => done.state matches Some(said) && said@ == state,
        None => done.state is None,
    }
    &&& done.complete == !cancelled
}

/// What holds of a pass whatever the host says of paths, also where it says one thing now and
/// another later: a cancelled pass finishes nothing, is not complete and closes no gap, and rows
/// on mounts that are not indexed are protected.
pub open spec fn concludes_anyway(
    done: Conclusion,
    pass: Pass,
    report: ScanReport,
    links: Links,
    stored: Seq<Seq<char>>,
    stopped: bool,
) -> bool {
    let cancelled = report.cancelled || links.cancelled;
    &&& done.complete == !cancelled
    &&& (done.finish is None) == cancelled
    &&& done.finish matches Some((scopes, kept)) ==> {
        &&& forall|i: int|
            0 <= i < report.excluded_mounts@.len() ==> text::texts(kept@).contains(
                (#[trigger] report.excluded_mounts@[i])@,
            )
        &&& pass.recursive ==> text::texts(pass.roots@).is_prefix_of(text::texts(scopes@))
    }
    &&& cancelled ==> forall|i: int|
        0 <= i < stored.len() ==> text::texts(done.uncovered@).contains(#[trigger] stored[i])
    &&& done.refresh == (if cancelled && stopped {
        None
    } else {
        Some(pass.initial && !cancelled)
    })
    &&& match state_after(pass.initial, cancelled) {
        Some(state) => done.state matches Some(said) && said@ == state,
        None => done.state is None,
    }
}

/// What a pass means for the index. `stored` are the gaps that the index has; `gone` tells that
/// nothing is at a path, `stands` that something is, `readable` that a directory can be listed.
pub fn conclude<G: Fn(&str) -> bool, S: Fn(&str) -> bool, R: Fn(&str) -> bool>(
    pass: &Pass,
    report: &ScanReport,
    links: &Links,
    stored: &[String],
    stopped: bool,
    gone: G,
    stands: S,
    readable: R,
) -> (done: Conclusion)
    requires
        forall|p: &str| #[trigger] call_requires(gone, (p,)),
        forall|p: &str| #[trigger] call_requires(stands, (p,)),
        forall|p: &str| #[trigger] call_requires(readable, (p,)),
    ensures
        concludes_anyway(done, *pass, *report, *links, text::texts(stored@), stopped),
        forall|
            g: spec_fn(Seq<char>) -> bool,
            s: spec_fn(Seq<char>) -> bool,
            r: spec_fn(Seq<char>) -> bool,
        | #[trigger]
            selection::agrees(gone, g) && #[trigger] selection::agrees(stands, s)
                && #[trigger] selection::agrees(readable, r) ==> concludes(
                done,
                *pass,
                *report,
                *links,
                text::texts(stored@),
                stopped,
                g,
                s,
                r,
            ),
{
    let cancelled = report.cancelled || links.cancelled;
    let mut uncovered = copy_texts(report.uncovered.as_slice());
    append_texts(&mut uncovered, copy_texts(links.uncovered.as_slice()));
    let mut told = copy_texts(report.errors.as_slice());
    append_texts(&mut told, copy_texts(links.errors.as_slice()));
    let (denied, removed) = if pass.initial {
        let none: Vec<String> = Vec::new();
        assert(text::texts(none@) =~= Seq::<Seq<char>>::empty());
        (uncovered, none)
    } else {
        part_removed(&uncovered, pass.configured.as_slice(), &gone, &stands, &readable)
    };
    discard_removed_path_errors(&mut told, removed.as_slice());
    let finish = if cancelled {
        None
    } else {
        let mut scopes: Vec<String> = Vec::new();
        assert(text::texts(scopes@) =~= Seq::<Seq<char>>::empty());
        if pass.recursive {
            scopes = copy_texts(pass.roots.as_slice());
        }
        let ghost whole = text::texts(scopes@);
        append_texts(&mut scopes, copy_texts(removed.as_slice()));
        assert(pass.recursive ==> whole =~= text::texts(scopes@).subrange(0, whole.len() as int));
        let mut kept = copy_texts(denied.as_slice());
        let ghost open = text::texts(kept@);
        append_texts(&mut kept, copy_texts(report.excluded_mounts.as_slice()));
        proof {
            let mounts = text::texts(report.excluded_mounts@);
            assert forall|i: int| 0 <= i < report.excluded_mounts@.len() implies text::texts(
                kept@,
            ).contains((#[trigger] report.excluded_mounts@[i])@) by {
                assert(mounts[i] == report.excluded_mounts@[i]@);
                assert(text::texts(kept@)[open.len() + i] == mounts[i]);
            }
        }
        Some((scopes, kept))
    };
    let recursive = pass.recursive;
    let stays = |path: &str| -> (keep: bool)
        ensures
            keep == (cancelled || !recursive || !under_any(path@, text::texts(pass.roots@))),
        { cancelled || !recursive || !is_under(path, pass.roots.as_slice()) };
    let mut gaps = keep_texts(
        stored,
        stays,
        Ghost(
            |path: Seq<char>|
                cancelled || !pass.recursive || !under_any(path, text::texts(pass.roots@)),
        ),
    );
    let ghost closed = text::texts(gaps@);
    append_texts(&mut gaps, denied);
    let ghost all = text::texts(gaps@);
    let uncovered = sort_distinct(gaps);
    proof {
        let list = text::texts(stored@);
        if cancelled {
            lemma_all_kept(
                list,
                |path: Seq<char>|
                    cancelled || !pass.recursive || !under_any(path, text::texts(pass.roots@)),
            );
            assert forall|i: int| 0 <= i < list.len() implies text::texts(uncovered@).contains(
                #[trigger] list[i],
            ) by {
                assert(closed[i] == list[i]);
                assert(all[i] == list[i]);
                assert(all.to_set().contains(list[i]));
                assert(text::texts(uncovered@).to_set().contains(list[i]));
            }
        }
    }
    let refresh = if cancelled && stopped {
        None
    } else {
        Some(pass.initial && !cancelled)
    };
    let state = if cancelled {
        Some("cancelled")
    } else if pass.initial {
        Some("ready")
    } else {
        None
    };
    Conclusion { finish, uncovered, errors: told, refresh, state, complete: !cancelled }
}

/// A cancelled pass removes no row and closes no gap.
pub proof fn law_a_cancelled_pass_only_adds_gaps(
    done: Conclusion,
    pass: Pass,
    report: ScanReport,
    links: Links,
    stored: Seq<Seq<char>>,
    stopped: bool,
    gone: spec_fn(Seq<char>) -> bool,
    stands: spec_fn(Seq<char>) -> bool,
    readable: spec_fn(Seq<char>) -> bool,
    gap: Seq<char>,
)
    requires
        concludes(done, pass, report, links, stored, stopped, gone, stands, readable),
        report.cancelled || links.cancelled,
        stored.contains(gap),
    ensures
        done.finish is None,
        !done.complete,
        text::texts(done.uncovered@).contains(gap),
{
    let uncovered = text::texts(report.uncovered@) + text::texts(links.uncovered@);
    let denied = denials(pass, uncovered, gone, stands, readable);
    let same = |path: Seq<char>|
        (report.cancelled || links.cancelled) || !pass.recursive || !under_any(
            path,
            text::texts(pass.roots@),
        );
    lemma_all_kept(stored, same);
    let all = text::kept_texts(stored, same) + denied;
    let i = choose|i: int| 0 <= i < stored.len() && stored[i] == gap;
    assert(all[i] == gap);
    text_order::lemma_sorted_exists(all);
    assert(all.to_set().contains(gap));
    assert(text_order::sorted_distinct(all).to_set().contains(gap));
}

proof fn lemma_all_kept(list: Seq<Seq<char>>, keep: spec_fn(Seq<char>) -> bool)
    requires
        forall|i: int| 0 <= i < list.len() ==> keep(#[trigger] list[i]),
    ensures
        text::kept_texts(list, keep) == list,
    decreases list.len(),
{
    if list.len() > 0 {
        lemma_all_kept(list.drop_last(), keep);
        assert(list.last() == list[list.len() - 1]);
        assert(list =~= list.drop_last().push(list.last()));
    }
}

/// A chosen root that vanished is a gap, never a removal.
pub proof fn law_a_vanished_root_is_no_removal(
    pass: Pass,
    root: Seq<char>,
    gone: spec_fn(Seq<char>) -> bool,
    stands: spec_fn(Seq<char>) -> bool,
    readable: spec_fn(Seq<char>) -> bool,
)
    requires
        text::texts(pass.configured@).contains(root),
    ensures
        !is_removed(root, text::texts(pass.configured@), gone, stands, readable),
{
}

} // verus!
