//! Directories that events named: whether to look at them, or to scan what is below.
use crate::scanner::namespace;
use crate::scanner::namespace::{HostNames, PathScopes};
use crate::scanner::plan::Reconciliation;
use crate::scanner::selection;
use crate::scanner::selection::choose_roots;
use crate::text;
use crate::text::{append_texts, copy_texts, keep_texts};
use crate::text_order;
use crate::text_order::sort_distinct;
use vstd::prelude::*;

verus! {

/// What the index and the host say of paths.
pub struct Answers {
    /// The index holds what is below a directory.
    pub covered: spec_fn(Seq<char>) -> bool,
    /// A directory can be listed.
    pub accessible: spec_fn(Seq<char>) -> bool,
    /// A gap can be looked at now.
    pub reachable: spec_fn(Seq<char>) -> bool,
    pub allowed: spec_fn(Seq<char>) -> bool,
    pub link: spec_fn(Seq<char>) -> bool,
    pub real: spec_fn(Seq<char>) -> Option<Seq<char>>,
}

/// Whether a directory is covered is found as by a function of the path.
pub open spec fn covered_as<V: Fn(&str) -> Result<bool, String>>(
    ask: V,
    answer: spec_fn(Seq<char>) -> bool,
) -> bool {
    forall|path: &str, said: bool| #[trigger]
        call_ensures(ask, (path,), Ok(said)) ==> said == answer(path@)
}

/// Whether a directory is covered could not be found out.
pub open spec fn refused<V: Fn(&str) -> Result<bool, String>>(ask: V, reason: String) -> bool {
    exists|path: &str| #[trigger] call_ensures(ask, (path,), Err(reason))
}

/// The index and the host answer alike whenever they are asked.
pub open spec fn answered<
    V: Fn(&str) -> Result<bool, String>,
    D: Fn(&str) -> bool,
    G: Fn(&str) -> bool,
    A: Fn(&str) -> bool,
    S: Fn(&str) -> bool,
    R: Fn(&str) -> Option<String>,
>(
    covered: V,
    accessible: D,
    reachable: G,
    allows: A,
    is_link: S,
    find: R,
    answers: Answers,
) -> bool {
    &&& covered_as(covered, answers.covered)
    &&& selection::agrees(accessible, answers.accessible)
    &&& selection::agrees(reachable, answers.reachable)
    &&& selection::agrees(allows, answers.allowed)
    &&& selection::agrees(is_link, answers.link)
    &&& selection::resolves(find, answers.real)
}

/// A directory that only has to be looked at: the index holds what is below, and it can still
/// be listed.
pub open spec fn is_sound(answers: Answers, path: Seq<char>) -> bool {
    (answers.covered)(path) && (answers.accessible)(path)
}

pub open spec fn sound(answers: Answers, checks: Seq<Seq<char>>) -> Seq<Seq<char>> {
    text::kept_texts(checks, |path: Seq<char>| is_sound(answers, path))
}

pub open spec fn unsound(answers: Answers, checks: Seq<Seq<char>>) -> Seq<Seq<char>> {
    text::kept_texts(checks, |path: Seq<char>| !is_sound(answers, path))
}

/// A gap of the index that can be looked at again: a sound directory, or something below one
/// that can be reached.
pub open spec fn reopens(answers: Answers, good: Seq<Seq<char>>, gap: Seq<char>) -> bool {
    namespace::names_path(good, gap) || (namespace::covered(good, gap) && (answers.reachable)(gap))
}

/// What is scanned once the directories are checked.
pub open spec fn scanned(
    names: HostNames,
    plan: Reconciliation,
    uncovered: Seq<Seq<char>>,
    answers: Answers,
) -> Seq<Seq<char>> {
    let checks = text::texts(plan.directory_checks@);
    let good = sound(answers, checks);
    selection::roots_of(
        names,
        text::texts(plan.recursive@) + unsound(answers, checks) + text::kept_texts(
            uncovered,
            |gap: Seq<char>| reopens(answers, good, gap),
        ),
        answers.allowed,
        answers.link,
        answers.real,
    )
}

/// What is looked at once the directories are checked.
pub open spec fn looked_at(
    plan: Reconciliation,
    answers: Answers,
    scopes: Seq<Seq<char>>,
) -> Seq<Seq<char>> {
    text_order::sorted_distinct(
        text::kept_texts(
            text::texts(plan.metadata@) + sound(answers, text::texts(plan.directory_checks@)),
            |path: Seq<char>| !namespace::covered(scopes, path),
        ),
    )
}

/// Part the directories to check. `None` where the work was stopped.
fn part_checks<V: Fn(&str) -> Result<bool, String>, D: Fn(&str) -> bool, C: Fn() -> bool>(
    checks: &Vec<String>,
    covered: &V,
    accessible: &D,
    stopped: &C,
) -> (result: Result<Option<(Vec<String>, Vec<String>)>, String>)
    requires
        forall|p: &str| #[trigger] call_requires(*covered, (p,)),
        forall|p: &str| #[trigger] call_requires(*accessible, (p,)),
        call_requires(*stopped, ()),
    ensures
        match result {
            Ok(Some((good, bad))) => forall|answers: Answers| #[trigger]
                covered_as(*covered, answers.covered) && #[trigger] selection::agrees(
                    *accessible,
                    answers.accessible,
                ) ==> text::texts(good@) == sound(answers, text::texts(checks@)) && text::texts(
                    bad@,
                ) == unsound(answers, text::texts(checks@)),
            Ok(None) => call_ensures(*stopped, (), true),
            Err(reason) => refused(*covered, reason),
        },
{
    let ghost all = text::texts(checks@);
    let mut good: Vec<String> = Vec::new();
    let mut bad: Vec<String> = Vec::new();
    let mut next: usize = 0;
    assert(text::texts(good@) =~= Seq::<Seq<char>>::empty());
    assert(text::texts(bad@) =~= Seq::<Seq<char>>::empty());
    assert(all.take(0) =~= Seq::<Seq<char>>::empty());
    while next < checks.len()
        invariant
            next <= checks@.len(),
            all == text::texts(checks@),
            forall|p: &str| #[trigger] call_requires(*covered, (p,)),
            forall|p: &str| #[trigger] call_requires(*accessible, (p,)),
            call_requires(*stopped, ()),
            forall|answers: Answers| #[trigger]
                covered_as(*covered, answers.covered) && #[trigger] selection::agrees(
                    *accessible,
                    answers.accessible,
                ) ==> text::texts(good@) == sound(answers, all.take(next as int)) && text::texts(
                    bad@,
                ) == unsound(answers, all.take(next as int)),
        decreases checks@.len() - next,
    {
        if stopped() {
            return Ok(None);
        }
        let path = checks[next].as_str();
        let ghost part = all.take(next + 1);
        let ghost (fine, rest) = (text::texts(good@), text::texts(bad@));
        assert(part.drop_last() =~= all.take(next as int));
        assert(part.last() == path@);
        let said = covered(path);
        let held = match said {
            Ok(held) => held,
            Err(reason) => {
                assert(refused(*covered, reason));
                return Err(reason);
            },
        };
        let mut kept = false;
        if held {
            kept = accessible(path);
        }
        if kept {
            good.push(path.to_owned());
            assert(text::texts(good@) =~= fine.push(path@));
        } else {
            bad.push(path.to_owned());
            assert(text::texts(bad@) =~= rest.push(path@));
        }
        proof {
            assert forall|answers: Answers| #[trigger]
                covered_as(*covered, answers.covered) && #[trigger] selection::agrees(
                    *accessible,
                    answers.accessible,
                ) implies text::texts(good@) == sound(answers, part) && text::texts(bad@)
                == unsound(answers, part) by {
                assert(fine == sound(answers, all.take(next as int)));
                assert(rest == unsound(answers, all.take(next as int)));
                assert(is_sound(answers, path@) == kept);
            }
        }
        next = next + 1;
    }
    assert(all.take(next as int) =~= all);
    Ok(Some((good, bad)))
}

/// The gaps that can be looked at again. `None` where the work was stopped.
fn find_reopened<G: Fn(&str) -> bool, C: Fn() -> bool>(
    uncovered: &[String],
    good: &Vec<String>,
    reachable: &G,
    stopped: &C,
) -> (result: Option<Vec<String>>)
    requires
        forall|p: &str| #[trigger] call_requires(*reachable, (p,)),
        call_requires(*stopped, ()),
    ensures
        match result {
            Some(gaps) => forall|answers: Answers| #[trigger]
                selection::agrees(*reachable, answers.reachable) ==> text::texts(gaps@)
                    == text::kept_texts(
                    text::texts(uncovered@),
                    |gap: Seq<char>| reopens(answers, text::texts(good@), gap),
                ),
            None => call_ensures(*stopped, (), true),
        },
{
    let ghost all = text::texts(uncovered@);
    let ghost fine = text::texts(good@);
    let scopes = PathScopes::from_paths(good.as_slice());
    let mut gaps: Vec<String> = Vec::new();
    let mut next: usize = 0;
    assert(text::texts(gaps@) =~= Seq::<Seq<char>>::empty());
    assert(all.take(0) =~= Seq::<Seq<char>>::empty());
    while next < uncovered.len()
        invariant
            next <= uncovered@.len(),
            all == text::texts(uncovered@),
            fine == text::texts(good@),
            forall|path: Seq<char>| #[trigger]
                namespace::covered(scopes@, path) == namespace::covered(fine, path),
            forall|path: Seq<char>| #[trigger]
                namespace::names_path(scopes@, path) == namespace::names_path(fine, path),
            forall|p: &str| #[trigger] call_requires(*reachable, (p,)),
            call_requires(*stopped, ()),
            forall|answers: Answers| #[trigger]
                selection::agrees(*reachable, answers.reachable) ==> text::texts(gaps@)
                    == text::kept_texts(
                    all.take(next as int),
                    |gap: Seq<char>| reopens(answers, fine, gap),
                ),
        decreases uncovered@.len() - next,
    {
        if stopped() {
            return None;
        }
        let path = uncovered[next].as_str();
        let ghost part = all.take(next + 1);
        let ghost before = text::texts(gaps@);
        assert(part.drop_last() =~= all.take(next as int));
        assert(part.last() == path@);
        let mut open = scopes.contains(path);
        if !open {
            if scopes.covers(path) {
                open = reachable(path);
            }
        }
        if open {
            gaps.push(path.to_owned());
            assert(text::texts(gaps@) =~= before.push(path@));
        }
        proof {
            assert forall|answers: Answers| #[trigger]
                selection::agrees(*reachable, answers.reachable) implies text::texts(gaps@)
                == text::kept_texts(part, |gap: Seq<char>| reopens(answers, fine, gap)) by {
                let keep = |gap: Seq<char>| reopens(answers, fine, gap);
                assert(before == text::kept_texts(all.take(next as int), keep));
                assert(keep(path@) == open);
            }
        }
        next = next + 1;
    }
    assert(all.take(next as int) =~= all);
    Some(gaps)
}

/// Check the directories of a plan: those that the index covers and that can be listed are
/// looked at, the others scanned, together with gaps that can be looked at again. `None` where
/// the work was stopped.
pub fn resolve_directory_checks<
    V: Fn(&str) -> Result<bool, String>,
    D: Fn(&str) -> bool,
    G: Fn(&str) -> bool,
    A: Fn(&str) -> bool,
    S: Fn(&str) -> bool,
    R: Fn(&str) -> Option<String>,
    C: Fn() -> bool,
>(
    plan: &Reconciliation,
    uncovered: &[String],
    names: &HostNames,
    covered: V,
    accessible: D,
    reachable: G,
    allows: A,
    is_link: S,
    find: R,
    stopped: C,
) -> (result: Result<Option<Reconciliation>, String>)
    requires
        forall|p: &str| #[trigger] call_requires(covered, (p,)),
        forall|p: &str| #[trigger] call_requires(accessible, (p,)),
        forall|p: &str| #[trigger] call_requires(reachable, (p,)),
        forall|p: &str| #[trigger] call_requires(allows, (p,)),
        forall|p: &str| #[trigger] call_requires(is_link, (p,)),
        forall|p: &str| #[trigger] call_requires(find, (p,)),
        call_requires(stopped, ()),
    ensures
        match result {
            Ok(Some(done)) => done.directory_checks@.len() == 0 && forall|answers: Answers| #[trigger]
                answered(covered, accessible, reachable, allows, is_link, find, answers) ==> {
                    let scopes = scanned(*names, *plan, text::texts(uncovered@), answers);
                    &&& text::texts(done.recursive@) == scopes
                    &&& text::texts(done.metadata@) == looked_at(*plan, answers, scopes)
                },
            Ok(None) => call_ensures(stopped, (), true),
            Err(reason) => refused(covered, reason),
        },
{
    let (good, bad) = match part_checks(&plan.directory_checks, &covered, &accessible, &stopped) {
        Ok(Some(parts)) => parts,
        Ok(None) => {
            return Ok(None);
        },
        Err(reason) => {
            return Err(reason);
        },
    };
    let gaps = match find_reopened(uncovered, &good, &reachable, &stopped) {
        Some(gaps) => gaps,
        None => {
            return Ok(None);
        },
    };
    let mut recursive = copy_texts(plan.recursive.as_slice());
    append_texts(&mut recursive, bad);
    append_texts(&mut recursive, gaps);
    let scopes = match choose_roots(
        recursive.as_slice(),
        names,
        &allows,
        &is_link,
        &find,
        &stopped,
    ) {
        Some(scopes) => scopes,
        None => {
            return Ok(None);
        },
    };
    let mut metadata = copy_texts(plan.metadata.as_slice());
    append_texts(&mut metadata, good);
    let taken = PathScopes::from_paths(scopes.as_slice());
    let apart = |path: &str| -> (keep: bool)
        ensures
            keep == !namespace::covered(taken@, path@),
        { !taken.covers(path) };
    let ghost wanted = |path: Seq<char>| !namespace::covered(text::texts(scopes@), path);
    let rest = keep_texts(metadata.as_slice(), apart, Ghost(wanted));
    let metadata = sort_distinct(rest);
    Ok(Some(Reconciliation { recursive: scopes, metadata, directory_checks: Vec::new() }))
}

} // verus!
