//! Whether what is not found is gone, and what can be read.
use crate::paths;
use crate::paths::{parent, same_path, starts_with};
use crate::text;
use vstd::prelude::*;

verus! {

/// What a look at a path found, without following a link.
#[derive(Clone, Copy, Debug, PartialEq, Eq, Structural)]
pub enum Presence {
    /// A directory that can be read.
    Readable,
    /// A directory that cannot be read.
    Closed,
    /// Something else.
    Other,
    /// Nothing has this name.
    Missing,
    /// The host did not say.
    Unknown,
}

/// Looks find what a function of the path says.
pub open spec fn looks_as<F: Fn(&str) -> Presence>(
    look: F,
    answer: spec_fn(Seq<char>) -> Presence,
) -> bool {
    forall|path: &str, said: Presence| #[trigger]
        call_ensures(look, (path,), said) ==> said == answer(path@)
}

/// A path is one of some roots or lies below one.
pub open spec fn selected(path: Seq<char>, roots: Seq<Seq<char>>) -> bool {
    exists|i: int| 0 <= i < roots.len() && #[trigger] paths::path_starts_with(path, roots[i])
}

/// A path is one of some roots.
pub open spec fn is_root(path: Seq<char>, roots: Seq<Seq<char>>) -> bool {
    exists|i: int|
        0 <= i < roots.len() && paths::components(path) == #[trigger] paths::components(roots[i])
}

/// The nearest name above that exists is a directory that can be read, and everything up to it
/// is selected.
pub open spec fn absence_proved(
    above: Option<Seq<char>>,
    roots: Seq<Seq<char>>,
    answer: spec_fn(Seq<char>) -> Presence,
) -> bool
    decreases (match above {
        Some(path) => path.len() + 1,
        None => 0,
    }),
{
    match above {
        None => false,
        Some(path) => if !selected(path, roots) {
            false
        } else {
            proof {
                paths::lemma_parent_shorter(path);
            }
            match answer(path) {
                Presence::Readable => true,
                Presence::Missing => absence_proved(paths::parent_path(path), roots, answer),
                _ => false,
            }
        },
    }
}

/// What is selected, is no root itself and is not found, is gone where a directory above it
/// that can be read proves so.
pub open spec fn is_missing(
    path: Seq<char>,
    roots: Seq<Seq<char>>,
    answer: spec_fn(Seq<char>) -> Presence,
) -> bool {
    &&& !is_root(path, roots)
    &&& selected(path, roots)
    &&& answer(path) == Presence::Missing
    &&& absence_proved(paths::parent_path(path), roots, answer)
}

fn is_selected(path: &str, roots: &[String]) -> (found: bool)
    ensures
        found == selected(path@, text::texts(roots@)),
{
    let ghost list = text::texts(roots@);
    let mut next: usize = 0;
    while next < roots.len()
        invariant
            next <= roots@.len(),
            list == text::texts(roots@),
            forall|i: int| 0 <= i < next ==> !#[trigger] paths::path_starts_with(path@, list[i]),
        decreases roots@.len() - next,
    {
        assert(list[next as int] == roots@[next as int]@);
        if starts_with(path, roots[next].as_str()) {
            assert(paths::path_starts_with(path@, list[next as int]));
            return true;
        }
        next = next + 1;
    }
    false
}

fn names_root(path: &str, roots: &[String]) -> (found: bool)
    ensures
        found == is_root(path@, text::texts(roots@)),
{
    let ghost list = text::texts(roots@);
    let mut next: usize = 0;
    while next < roots.len()
        invariant
            next <= roots@.len(),
            list == text::texts(roots@),
            forall|i: int|
                0 <= i < next ==> paths::components(path@) != #[trigger] paths::components(list[i]),
        decreases roots@.len() - next,
    {
        assert(list[next as int] == roots@[next as int]@);
        if same_path(path, roots[next].as_str()) {
            assert(paths::components(path@) == paths::components(list[next as int]));
            return true;
        }
        next = next + 1;
    }
    false
}

/// Whether an entry is gone. That a look was refused, or that a link stands in the way, proves
/// nothing; only a directory above the entry that was chosen and can be read does.
pub fn entry_is_missing<F: Fn(&str) -> Presence>(path: &str, configured: &[String], look: F) -> (missing:
    bool)
    requires
        forall|name: &str| #[trigger] call_requires(look, (name,)),
    ensures
        forall|answer: spec_fn(Seq<char>) -> Presence| #[trigger]
            looks_as(look, answer) ==> missing == is_missing(
                path@,
                text::texts(configured@),
                answer,
            ),
{
    let ghost roots = text::texts(configured@);
    if names_root(path, configured) || !is_selected(path, configured) {
        return false;
    }
    if look(path) != Presence::Missing {
        return false;
    }
    let mut above = parent(path);
    loop
        invariant
            roots == text::texts(configured@),
            forall|name: &str| #[trigger] call_requires(look, (name,)),
            forall|answer: spec_fn(Seq<char>) -> Presence| #[trigger]
                looks_as(look, answer) ==> is_missing(path@, roots, answer) == absence_proved(
                    match above {
                        Some(name) => Some(name@),
                        None => None,
                    },
                    roots,
                    answer,
                ),
        decreases
            (match above {
                Some(name) => name@.len() + 1,
                None => 0,
            }),
    {
        let name = match above {
            Some(name) => name,
            None => {
                return false;
            },
        };
        proof {
            paths::lemma_parent_shorter(name@);
        }
        if !is_selected(name.as_str(), configured) {
            return false;
        }
        match look(name.as_str()) {
            Presence::Readable => {
                return true;
            },
            Presence::Missing => {
                above = parent(name.as_str());
                proof {
                    reveal_with_fuel(absence_proved, 2);
                }
            },
            _ => {
                return false;
            },
        }
    }
}

/// Whether what stands at a path can be read: a directory itself, or the directory that holds
/// anything else.
pub open spec fn accessible_as(
    path: Seq<char>,
    answer: spec_fn(Seq<char>) -> Presence,
) -> bool {
    match answer(path) {
        Presence::Readable => true,
        Presence::Other => paths::parent_path(path) matches Some(up) && answer(up)
            == Presence::Readable,
        _ => false,
    }
}

/// Whether what stands at a path can be read.
pub fn scope_accessible<F: Fn(&str) -> Presence>(path: &str, look: F) -> (accessible: bool)
    requires
        forall|name: &str| #[trigger] call_requires(look, (name,)),
    ensures
        forall|answer: spec_fn(Seq<char>) -> Presence| #[trigger]
            looks_as(look, answer) ==> accessible == accessible_as(path@, answer),
{
    match look(path) {
        Presence::Readable => true,
        Presence::Other => match parent(path) {
            Some(up) => look(up.as_str()) == Presence::Readable,
            None => false,
        },
        _ => false,
    }
}

/// Where the host does not answer for the directory above, nothing is gone.
pub proof fn law_silence_proves_no_absence(
    path: Seq<char>,
    roots: Seq<Seq<char>>,
    answer: spec_fn(Seq<char>) -> Presence,
)
    requires
        paths::parent_path(path) matches Some(up) && (answer(up) == Presence::Unknown || answer(up)
            == Presence::Closed),
    ensures
        !is_missing(path, roots, answer),
{
}

/// A root itself is never gone.
pub proof fn law_a_root_is_never_missing(
    root: Seq<char>,
    roots: Seq<Seq<char>>,
    answer: spec_fn(Seq<char>) -> Presence,
)
    requires
        roots.contains(root),
    ensures
        !is_missing(root, roots, answer),
{
    let i = choose|i: int| 0 <= i < roots.len() && roots[i] == root;
    assert(paths::components(root) == paths::components(roots[i]));
}

} // verus!
