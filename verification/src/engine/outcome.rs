//! What a pass comes to, and what follows.
//!
//! A path that leads elsewhere than it did while a batch is looked at is no failure: nothing of the
//! pass is written, and the same work is done again.
use crate::engine::prepare::PreparationError;
use crate::engine::reconcile;
use crate::engine::reconcile::{conclude, Conclusion, Links, Pass};
use crate::engine::watch;
use crate::engine::watch::Drain;
use crate::scanner::events;
use crate::scanner::events::ChangeEvent;
use crate::scanner::namespace::HostNames;
use crate::scanner::selection;
use crate::scanner::ScanReport;
use crate::text;
use vstd::prelude::*;

verus! {

/// What a pass came to.
#[derive(Clone, Copy, Debug, PartialEq, Eq, Structural)]
pub enum ReconciliationOutcome {
    Complete,
    Cancelled,
    /// A namespace conflict: the same work has to be done again.
    Retry,
}

/// What a pass came to, and what is written of it. Without a conclusion the rows, gaps, cursor and
/// snapshot of the index, and the state, stay as they were.
#[derive(Debug)]
pub struct PassEnd {
    pub outcome: ReconciliationOutcome,
    pub conclusion: Option<Conclusion>,
}

/// The links of a pass, cancelled too where one of its batches was.
pub open spec fn links_with(links: Links, batch_cancelled: bool) -> Links {
    Links { cancelled: links.cancelled || batch_cancelled, ..links }
}

/// End a pass. `problem` is why a batch was not committed, if one was not: a failure ends the pass
/// with it, a conflict makes it be tried again, and a cancelled batch makes it a cancelled pass.
pub fn end_pass<G: Fn(&str) -> bool, S: Fn(&str) -> bool, R: Fn(&str) -> bool>(
    problem: Option<PreparationError>,
    pass: &Pass,
    report: &ScanReport,
    links: Links,
    stored: &[String],
    stopped: bool,
    gone: G,
    stands: S,
    readable: R,
) -> (result: Result<PassEnd, String>)
    requires
        forall|p: &str| #[trigger] call_requires(gone, (p,)),
        forall|p: &str| #[trigger] call_requires(stands, (p,)),
        forall|p: &str| #[trigger] call_requires(readable, (p,)),
    ensures
        match problem {
            Some(PreparationError::Failure(reason)) => result == Err::<PassEnd, String>(reason),
            Some(PreparationError::Retry) => result matches Ok(end) && end.outcome
                == ReconciliationOutcome::Retry && end.conclusion is None,
            other => {
                let all = links_with(links, other is Some);
                &&& result matches Ok(end)
                &&& end.outcome == (if report.cancelled || all.cancelled {
                    ReconciliationOutcome::Cancelled
                } else {
                    ReconciliationOutcome::Complete
                })
                &&& end.conclusion matches Some(done)
                &&& reconcile::concludes_anyway(
                    done,
                    *pass,
                    *report,
                    all,
                    text::texts(stored@),
                    stopped,
                )
                &&& forall|
                    g: spec_fn(Seq<char>) -> bool,
                    s: spec_fn(Seq<char>) -> bool,
                    r: spec_fn(Seq<char>) -> bool,
                | #[trigger]
                    selection::agrees(gone, g) && #[trigger] selection::agrees(stands, s)
                        && #[trigger] selection::agrees(readable, r) ==> reconcile::concludes(
                        done,
                        *pass,
                        *report,
                        all,
                        text::texts(stored@),
                        stopped,
                        g,
                        s,
                        r,
                    )
            },
        },
{
    let batch_cancelled = match problem {
        Some(PreparationError::Failure(reason)) => {
            return Err(reason);
        },
        Some(PreparationError::Retry) => {
            return Ok(PassEnd { outcome: ReconciliationOutcome::Retry, conclusion: None });
        },
        Some(PreparationError::Cancelled) => true,
        None => false,
    };
    let all = Links {
        cancelled: links.cancelled || batch_cancelled,
        uncovered: links.uncovered,
        errors: links.errors,
    };
    let done = conclude(pass, report, &all, stored, stopped, gone, stands, readable);
    let outcome = if done.complete {
        ReconciliationOutcome::Complete
    } else {
        ReconciliationOutcome::Cancelled
    };
    Ok(PassEnd { outcome, conclusion: Some(done) })
}

/// What follows a pass over a baseline.
#[derive(Clone, Copy, Debug, PartialEq, Eq, Structural)]
pub enum BaselineStep {
    /// The same pass again.
    Again,
    /// The baseline is over, complete or not.
    Over(bool),
}

/// A baseline is tried again after each conflict, until it is complete, cancelled or stopped.
pub fn after_baseline(outcome: ReconciliationOutcome, stopped: bool) -> (next: BaselineStep)
    ensures
        next == (match outcome {
            ReconciliationOutcome::Complete => BaselineStep::Over(true),
            ReconciliationOutcome::Cancelled => BaselineStep::Over(false),
            ReconciliationOutcome::Retry => if stopped {
                BaselineStep::Over(false)
            } else {
                BaselineStep::Again
            },
        }),
{
    match outcome {
        ReconciliationOutcome::Complete => BaselineStep::Over(true),
        ReconciliationOutcome::Cancelled => BaselineStep::Over(false),
        ReconciliationOutcome::Retry => if stopped {
            BaselineStep::Over(false)
        } else {
            BaselineStep::Again
        },
    }
}

/// What follows the passes over the events of a drain.
#[derive(Debug)]
pub enum DrainEnd {
    /// Everything was reconciled: the events can be acknowledged.
    Reconciled(Drain),
    /// The events wait for the next drain.
    Queued(Vec<ChangeEvent>),
}

/// A pass that was not needed, or that is complete.
pub open spec fn is_over(outcome: Option<ReconciliationOutcome>) -> bool {
    outcome is None || outcome == Some(ReconciliationOutcome::Complete)
}

fn over(outcome: Option<ReconciliationOutcome>) -> (yes: bool)
    ensures
        yes == is_over(outcome),
{
    match outcome {
        None => true,
        Some(outcome) => outcome == ReconciliationOutcome::Complete,
    }
}

/// After the passes over a drain, over its scopes and over its single entries, each where there was
/// one: unless all are complete, the events are queued again and nothing is acknowledged.
pub fn after_passes(
    drain: Drain,
    scopes: Option<ReconciliationOutcome>,
    entries: Option<ReconciliationOutcome>,
    names: &HostNames,
) -> (end: DrainEnd)
    ensures
        match end {
            DrainEnd::Reconciled(done) => is_over(scopes) && is_over(entries) && done == drain,
            DrainEnd::Queued(waiting) => {
                &&& !(is_over(scopes) && is_over(entries))
                &&& events::event_views(waiting@) == watch::kept_of(drain, *names)
                &&& waiting@.take(drain.events@.len() as int) == drain.events@
            },
        },
{
    if over(scopes) && over(entries) {
        DrainEnd::Reconciled(drain)
    } else {
        DrainEnd::Queued(drain.keep(names))
    }
}

} // verus!
