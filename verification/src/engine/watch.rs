//! Following the host's event stream.
use crate::paths;
use crate::paths::starts_with;
use crate::scan_resume;
use crate::scan_resume::{Inspection, ResumeProof};
use crate::scanner::events;
use crate::scanner::events::{ChangeEvent, EVENT_HISTORY_DONE, EVENT_IDS_WRAPPED};
use crate::scanner::namespace::HostNames;
use crate::scanner::selection;
use crate::text;
use crate::text::same_text;
use vstd::prelude::*;

verus! {

/// The proof that the index keeps of the host that it was made on.
pub enum SavedProof {
    Missing,
    Invalid,
    Valid(ResumeProof),
}

/// What is known when a worker begins.
pub struct Beginning {
    pub watch: bool,
    /// The roots are those of the stored index, and it may be continued.
    pub resume: bool,
    /// The index notes that its event identifiers started anew.
    pub history_wrapped: bool,
    pub saved_cursor: u64,
    pub current_cursor: u64,
    pub saved: SavedProof,
    /// What the host is now, where that could be found out.
    pub inspection: Option<Inspection>,
}

/// Why the stored index is continued from the event history, or why not.
pub open spec fn reason_of(start: Beginning) -> Seq<char> {
    if !start.watch {
        "watch_disabled"@
    } else if !start.resume {
        "explicit_baseline_requested"@
    } else if start.history_wrapped {
        "event_ids_wrapped"@
    } else if start.saved_cursor == 0 {
        "missing_event_cursor"@
    } else if start.saved_cursor > start.current_cursor {
        "event_cursor_out_of_range"@
    } else {
        match start.saved {
            SavedProof::Missing => "missing_completed_baseline_proof"@,
            SavedProof::Invalid => "invalid_baseline_proof"@,
            SavedProof::Valid(before) => match start.inspection {
                None => "inspection_failed"@,
                Some(now) => match scan_resume::rejection(before, now.proof) {
                    Some(reason) => reason,
                    None => "journal_resume"@,
                },
            },
        }
    }
}

/// The stored index is continued.
pub open spec fn restores(start: Beginning) -> bool {
    &&& start.watch && start.resume && !start.history_wrapped
    &&& 0 < start.saved_cursor <= start.current_cursor
    &&& start.saved matches SavedProof::Valid(before) && (start.inspection matches Some(now)
        && scan_resume::rejection(before, now.proof) is None)
}

/// How a worker begins.
pub struct Resume {
    pub reason: &'static str,
    pub restore: bool,
    /// The event after which the stream is followed.
    pub since: u64,
    /// Scopes that the event history does not tell of.
    pub recheck: Vec<String>,
}

/// Decide how a worker begins. The cursor is taken before the stream starts, so that events
/// during a first scan are delivered again.
pub fn decide_resume<A: Fn(&str) -> bool>(
    start: &Beginning,
    names: &HostNames,
    accessible: A,
) -> (decision: Resume)
    requires
        forall|p: &str| #[trigger] call_requires(accessible, (p,)),
    ensures
        decision.reason@ == reason_of(*start),
        decision.restore == restores(*start),
        decision.since == (if restores(*start) {
            start.saved_cursor
        } else {
            start.current_cursor
        }),
        !restores(*start) ==> decision.recheck@.len() == 0,
        restores(*start) ==> forall|r: spec_fn(Seq<char>) -> bool| #[trigger]
            selection::agrees(accessible, r) ==> text::texts(decision.recheck@)
                == selection::scopes_of(
                *names,
                scan_resume::intersections(
                    scan_resume::changes(start.inspection->0, start.saved->Valid_0, r),
                    scan_resume::root_paths(start.inspection->0.proof.roots@),
                ),
            ),
{
    let none: Vec<String> = Vec::new();
    let reason = if !start.watch {
        "watch_disabled"
    } else if !start.resume {
        "explicit_baseline_requested"
    } else if start.history_wrapped {
        "event_ids_wrapped"
    } else if start.saved_cursor == 0 {
        "missing_event_cursor"
    } else if start.saved_cursor > start.current_cursor {
        "event_cursor_out_of_range"
    } else {
        match &start.saved {
            SavedProof::Missing => "missing_completed_baseline_proof",
            SavedProof::Invalid => "invalid_baseline_proof",
            SavedProof::Valid(before) => match &start.inspection {
                None => "inspection_failed",
                Some(now) => match before.rejection_reason(&now.proof) {
                    Some(reason) => reason,
                    None => {
                        let recheck = now.recheck_against(before, names, accessible);
                        return Resume {
                            reason: "journal_resume",
                            restore: true,
                            since: start.saved_cursor,
                            recheck,
                        };
                    },
                },
            },
        }
    };
    Resume { reason, restore: false, since: start.current_cursor, recheck: none }
}

/// Whether a completed scan becomes the baseline of the event history.
#[derive(Debug)]
pub enum Checkpoint {
    /// The proof from before the scan is kept. Mount events up to the cursor are done if the
    /// mounts are still the same.
    Commit { mounts_done: bool },
    /// Something changed during the scan, or what the host is now could not be found out.
    Refuse(String),
}

/// Whether a completed scan becomes the baseline of the event history: `before` is what the
/// host was when it began, `after` what it is now.
pub fn checkpoint(before: &ResumeProof, after: Result<Inspection, String>) -> (decision: Checkpoint)
    ensures
        match after {
            Ok(now) => match scan_resume::rejection(*before, now.proof) {
                None => decision == (Checkpoint::Commit {
                    mounts_done: scan_resume::same_mounts(*before, now.proof),
                }),
                Some(reason) => decision matches Checkpoint::Refuse(said) && said@ == reason,
            },
            Err(reason) => decision == Checkpoint::Refuse(reason),
        },
{
    match after {
        Ok(now) => match before.rejection_reason(&now.proof) {
            None => Checkpoint::Commit { mounts_done: before.same_mount_namespace(&now.proof) },
            Some(reason) => Checkpoint::Refuse(reason.to_owned()),
        },
        Err(reason) => Checkpoint::Refuse(reason),
    }
}

/// How far the stream has come.
#[derive(Clone, Copy, Debug)]
pub struct Stream {
    pub since: u64,
    /// Events from before the stream began are still being delivered.
    pub replaying: bool,
    /// The mounts that such events tell of are already in the index.
    pub mounts_done: bool,
}

/// Events of one drain that have to be reconciled before the cursor moves on.
#[derive(Debug)]
pub struct Drain {
    pub events: Vec<ChangeEvent>,
    pub history_done: bool,
    pub max_id: u64,
    /// Mount events up to this cursor are already in the index.
    pub mount_cursor: Option<u64>,
}

/// What to do with the events that were delivered.
#[derive(Debug)]
pub enum Step {
    Wait,
    /// The event identifiers started anew: the history is worthless, and a new stream begins.
    Restart,
    /// Nothing to reconcile. Saving a cursor here would write to the index and so cause the next
    /// event.
    Idle { watching: bool, rebuild_cache: bool },
    Reconcile(Drain),
}

/// An event says that the identifiers started anew.
pub open spec fn is_wrapped(event: ChangeEvent) -> bool {
    event.flags & EVENT_IDS_WRAPPED != 0
}

/// An event says that all events from before the stream were delivered.
pub open spec fn is_end(event: ChangeEvent) -> bool {
    event.flags & EVENT_HISTORY_DONE != 0
}

/// An event that has to be reconciled: not the end of the history, and not a change of the
/// index's own files, unless events were lost.
pub open spec fn matters(event: ChangeEvent, index_directory: Seq<char>) -> bool {
    !is_end(event) && (event.flags & 0x0e != 0 || !paths::path_starts_with(
        event.path@,
        index_directory,
    ))
}

pub open spec fn any_event(list: Seq<ChangeEvent>, is: spec_fn(ChangeEvent) -> bool) -> bool {
    exists|i: int| 0 <= i < list.len() && is(#[trigger] list[i])
}

/// The events that have to be reconciled.
pub open spec fn work_of(list: Seq<ChangeEvent>, index_directory: Seq<char>) -> Seq<ChangeEvent>
    decreases list.len(),
{
    if list.len() == 0 {
        list
    } else {
        let before = work_of(list.drop_last(), index_directory);
        if matters(list.last(), index_directory) {
            before.push(list.last())
        } else {
            before
        }
    }
}

/// The highest identifier of some events and the one that is saved.
pub open spec fn highest(list: Seq<ChangeEvent>, saved: u64) -> u64
    decreases list.len(),
{
    if list.len() == 0 {
        saved
    } else {
        let before = highest(list.drop_last(), saved);
        if list.last().event_id > before {
            list.last().event_id
        } else {
            before
        }
    }
}

/// What a drain comes to.
pub open spec fn steps(
    step: Step,
    list: Seq<ChangeEvent>,
    saved: u64,
    index_directory: Seq<char>,
    before: Stream,
    after: Stream,
) -> bool {
    let done = any_event(list, |event: ChangeEvent| is_end(event));
    let work = work_of(list, index_directory);
    if list.len() == 0 {
        step is Wait && after == before
    } else if any_event(list, |event: ChangeEvent| is_wrapped(event)) {
        step is Restart && after == before
    } else if work.len() == 0 {
        &&& after == (Stream { replaying: before.replaying && !done, ..before })
        &&& step == (Step::Idle { watching: !after.replaying, rebuild_cache: done })
    } else {
        &&& after == before
        &&& step matches Step::Reconcile(drain) && {
            &&& drain.events@ == work
            &&& drain.history_done == done
            &&& drain.max_id == highest(work, saved)
            &&& drain.mount_cursor == (if before.replaying && before.mounts_done {
                Some(before.since)
            } else {
                None
            })
        }
    }
}

impl Stream {
    /// The stream begins.
    pub fn begin(since: u64, mounts_done: bool) -> (stream: Self)
        ensures
            stream == (Stream { since, replaying: true, mounts_done }),
    {
        Stream { since, replaying: true, mounts_done }
    }

    /// Take the events that were delivered. `saved` is the cursor that the index keeps.
    pub fn take_drain(
        &mut self,
        delivered: Vec<ChangeEvent>,
        saved: u64,
        index_directory: &str,
    ) -> (step: Step)
        ensures
            steps(step, delivered@, saved, index_directory@, *old(self), *final(self)),
    {
        let ghost all = delivered@;
        let mut rest = delivered;
        let mut turned: Vec<ChangeEvent> = Vec::new();
        if rest.len() == 0 {
            return Step::Wait;
        }
        while rest.len() > 0
            invariant
                rest@.len() + turned@.len() == all.len(),
                rest@ == all.take(rest@.len() as int),
                forall|i: int|
                    0 <= i < turned@.len() ==> #[trigger] turned@[i] == all[all.len() - 1 - i],
            decreases rest@.len(),
        {
            let ghost count = rest@.len() as int;
            if let Some(event) = rest.pop() {
                assert(event == all[count - 1]);
                turned.push(event);
                assert(rest@ =~= all.take(count - 1));
            }
        }
        let ghost backwards = turned@;
        let ghost mut seen: int = 0;
        let mut work: Vec<ChangeEvent> = Vec::new();
        let mut wrapped = false;
        let mut done = false;
        let mut max_id = saved;
        assert(all.take(0) =~= Seq::<ChangeEvent>::empty());
        while turned.len() > 0
            invariant
                backwards.len() == all.len(),
                forall|i: int|
                    0 <= i < backwards.len() ==> #[trigger] backwards[i] == all[all.len() - 1 - i],
                seen + turned@.len() == all.len(),
                0 <= seen,
                turned@ == backwards.take(turned@.len() as int),
                work@ == work_of(all.take(seen), index_directory@),
                max_id == highest(work@, saved),
                wrapped == exists|i: int| 0 <= i < seen && is_wrapped(#[trigger] all[i]),
                done == exists|i: int| 0 <= i < seen && is_end(#[trigger] all[i]),
            decreases turned@.len(),
        {
            let ghost count = turned@.len() as int;
            if let Some(event) = turned.pop() {
                let ghost part = all.take(seen + 1);
                let ghost before = work@;
                assert(event == backwards[count - 1]);
                assert(all[seen] == event);
                assert(part.last() == event);
                assert(part.drop_last() =~= all.take(seen));
                if event.flags & EVENT_IDS_WRAPPED != 0 {
                    wrapped = true;
                }
                let ends = event.flags & EVENT_HISTORY_DONE != 0;
                if ends {
                    done = true;
                }
                if !ends && (event.flags & 0x0e != 0 || !starts_with(
                    event.path.as_str(),
                    index_directory,
                )) {
                    if event.event_id > max_id {
                        max_id = event.event_id;
                    }
                    assert(before.push(event).drop_last() =~= before);
                    work.push(event);
                }
                proof {
                    seen = seen + 1;
                }
                assert(turned@ =~= backwards.take(count - 1));
            }
        }
        assert(all.take(seen) =~= all);
        proof {
            assert(wrapped == any_event(all, |event: ChangeEvent| is_wrapped(event)));
            assert(done == any_event(all, |event: ChangeEvent| is_end(event)));
        }
        if wrapped {
            return Step::Restart;
        }
        if work.len() == 0 {
            if done {
                self.replaying = false;
            }
            return Step::Idle { watching: !self.replaying, rebuild_cache: done };
        }
        let mount_cursor = if self.replaying && self.mounts_done {
            Some(self.since)
        } else {
            None
        };
        Step::Reconcile(Drain { events: work, history_done: done, max_id, mount_cursor })
    }

    /// Everything of a drain was reconciled.
    pub fn acknowledge(&mut self, drain: &Drain, saved: u64) -> (done: Acknowledged)
        ensures
            *final(self) == (Stream {
                replaying: old(self).replaying && !drain.history_done,
                ..*old(self)
            }),
            done.advance == (if drain.max_id > saved {
                Some(drain.max_id)
            } else {
                None
            }),
            done.event_id == drain.max_id,
            done.state@ == (if final(self).replaying {
                "catching_up"@
            } else {
                "watching"@
            }),
            done.rebuild_cache == drain.history_done,
    {
        if drain.history_done {
            self.replaying = false;
        }
        Acknowledged {
            advance: if drain.max_id > saved {
                Some(drain.max_id)
            } else {
                None
            },
            event_id: drain.max_id,
            state: if self.replaying {
                "catching_up"
            } else {
                "watching"
            },
            rebuild_cache: drain.history_done,
        }
    }
}

/// What follows when a drain was reconciled.
#[derive(Debug)]
pub struct Acknowledged {
    /// The cursor to save.
    pub advance: Option<u64>,
    pub event_id: u64,
    pub state: &'static str,
    pub rebuild_cache: bool,
}

/// The events that are kept of a drain that could not be reconciled.
pub open spec fn kept_of(drain: Drain, names: HostNames) -> Seq<events::EventView> {
    let kept = events::event_views(drain.events@);
    if drain.history_done {
        kept.push(events::event_of(names, "/"@, 0, EVENT_HISTORY_DONE))
    } else {
        kept
    }
}

impl Drain {
    /// Keep the events of a drain that could not be reconciled for the next one.
    pub fn keep(self, names: &HostNames) -> (pending: Vec<ChangeEvent>)
        ensures
            events::event_views(pending@) == kept_of(self, *names),
            pending@.take(self.events@.len() as int) == self.events@,
            pending@.len() == self.events@.len() + (if self.history_done {
                1int
            } else {
                0
            }),
    {
        let mut pending = self.events;
        let ghost before = pending@;
        if self.history_done {
            let end = ChangeEvent::from_flags("/", 0, EVENT_HISTORY_DONE, names);
            pending.push(end);
            assert(events::event_views(pending@) =~= events::event_views(before).push(end@));
        }
        assert(pending@.take(before.len() as int) =~= before);
        pending
    }
}

proof fn lemma_work_again(list: Seq<ChangeEvent>, index_directory: Seq<char>)
    ensures
        work_of(work_of(list, index_directory), index_directory) == work_of(list, index_directory),
        forall|i: int|
            0 <= i < work_of(list, index_directory).len() ==> matters(
                #[trigger] work_of(list, index_directory)[i],
                index_directory,
            ),
    decreases list.len(),
{
    if list.len() > 0 {
        let head = list.drop_last();
        let work = work_of(list, index_directory);
        lemma_work_again(head, index_directory);
        if matters(list.last(), index_directory) {
            assert(work.drop_last() =~= work_of(head, index_directory));
        }
    }
}

/// A drain that could not be reconciled loses nothing: the same events are work again, whether
/// or not the end of the history was among them.
pub proof fn law_a_kept_drain_is_the_same_work(
    list: Seq<ChangeEvent>,
    index_directory: Seq<char>,
    end: ChangeEvent,
)
    requires
        is_end(end),
    ensures
        work_of(work_of(list, index_directory), index_directory) == work_of(list, index_directory),
        work_of(work_of(list, index_directory).push(end), index_directory) == work_of(
            list,
            index_directory,
        ),
{
    lemma_work_again(list, index_directory);
    let work = work_of(list, index_directory);
    assert(work.push(end).drop_last() =~= work);
}

/// The saved cursor never goes back.
pub proof fn law_the_cursor_never_goes_back(list: Seq<ChangeEvent>, saved: u64)
    ensures
        highest(list, saved) >= saved,
        forall|i: int| 0 <= i < list.len() ==> highest(list, saved) >= (#[trigger] list[i]).event_id,
    decreases list.len(),
{
    if list.len() > 0 {
        law_the_cursor_never_goes_back(list.drop_last(), saved);
        assert forall|i: int| 0 <= i < list.len() implies highest(list, saved) >= (
        #[trigger] list[i]).event_id by {
            if i < list.len() - 1 {
                assert(list.drop_last()[i] == list[i]);
            }
        }
    }
}

/// How a worker is started.
#[derive(Clone, Copy, Debug, PartialEq, Eq, Structural)]
pub struct WorkerStart {
    /// Rows outside the new roots are dropped, and the roots are stored.
    pub other_roots: bool,
    /// The stored index may be continued.
    pub resume: bool,
    /// The caller waits until the worker is done.
    pub wait: bool,
}

/// Decide how a worker is started. An index of other roots is not continued, and nobody waits
/// for a worker that goes on watching.
pub fn worker_start(
    stored: &Vec<String>,
    roots: &Vec<String>,
    resume: bool,
    watch: bool,
    wait: bool,
) -> (start: WorkerStart)
    ensures
        start == (WorkerStart {
            other_roots: text::texts(stored@) != text::texts(roots@),
            resume: resume && text::texts(stored@) == text::texts(roots@),
            wait: wait && !watch,
        }),
{
    let ghost (a, b) = (text::texts(stored@), text::texts(roots@));
    let mut same = stored.len() == roots.len();
    let mut next: usize = 0;
    assert(a.len() == stored@.len() && b.len() == roots@.len());
    while same && next < roots.len()
        invariant
            next <= roots@.len(),
            a == text::texts(stored@),
            b == text::texts(roots@),
            same ==> a.len() == b.len() && forall|i: int| 0 <= i < next ==> #[trigger] a[i] == b[i],
            !same ==> a != b,
        decreases roots@.len() - next,
    {
        if !same_text(stored[next].as_str(), roots[next].as_str()) {
            assert(a[next as int] != b[next as int]);
            same = false;
        }
        next = next + 1;
    }
    assert(same ==> a =~= b);
    WorkerStart { other_roots: !same, resume: resume && same, wait: wait && !watch }
}

} // verus!
