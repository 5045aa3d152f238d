//! Diagnostics of paths that turned out to be removed.
use crate::text;
use crate::text::{copy_texts, keep_texts};
use crate::text_order;
use crate::text_order::{found_in, sort_distinct};
use vstd::prelude::*;

verus! {

/// What stands between a path and its diagnostic.
pub const SEPARATOR: &'static str = ": ";

/// A diagnostic of a path.
pub open spec fn tells_of(error: Seq<char>, path: Seq<char>) -> bool {
    text::begins(error, path + SEPARATOR@)
}

/// A diagnostic of one of some paths.
pub open spec fn tells_of_any(error: Seq<char>, removed: Seq<Seq<char>>) -> bool {
    exists|i: int| 0 <= i < removed.len() && #[trigger] tells_of(error, removed[i])
}

/// The separator stands at a place of a text.
pub open spec fn separates(error: Seq<char>, at: int) -> bool {
    0 <= at && at + 1 < error.len() && error[at] == ':' && error[at + 1] == ' '
}

proof fn lemma_tells_of(error: Seq<char>, path: Seq<char>)
    ensures
        tells_of(error, path) == (separates(error, path.len() as int) && error.take(
            path.len() as int,
        ) == path),
{
    reveal_strlit(": ");
    let whole = path + SEPARATOR@;
    let n = path.len() as int;
    if tells_of(error, path) {
        assert(error.take(n + 2) == whole);
        assert(error.take(n + 2)[n] == ':' && error.take(n + 2)[n + 1] == ' ');
        assert(error.take(n) =~= error.take(n + 2).take(n));
        assert(whole.take(n) =~= path);
    }
    if separates(error, n) && error.take(n) == path {
        assert(error.take(n + 2) =~= whole);
    }
}

/// Whether a diagnostic tells of one of some sorted paths.
fn tells_of_sorted(error: &str, sorted: &Vec<String>) -> (found: bool)
    requires
        text_order::ascending(text::texts(sorted@)),
    ensures
        found == tells_of_any(error@, text::texts(sorted@)),
{
    let ghost list = text::texts(sorted@);
    let chars = text::chars_of(error);
    let mut at: usize = 0;
    while at < chars.len()
        invariant
            at <= chars@.len(),
            chars@ == error@,
            list == text::texts(sorted@),
            text_order::ascending(list),
            forall|i: int|
                0 <= i < list.len() && #[trigger] list[i].len() < at ==> !tells_of(
                    error@,
                    list[i],
                ),
        decreases chars@.len() - at,
    {
        if chars[at] == ':' && at + 1 < chars.len() && chars[at + 1] == ' ' {
            let path = text::text_of(&chars, 0, at);
            assert(path@ =~= error@.take(at as int));
            if found_in(sorted, path.as_str()) {
                proof {
                    let i = choose|i: int| 0 <= i < list.len() && list[i] == path@;
                    lemma_tells_of(error@, list[i]);
                }
                return true;
            }
            proof {
                assert forall|i: int| 0 <= i < list.len() && #[trigger] list[i].len()
                    == at implies !tells_of(error@, list[i]) by {
                    lemma_tells_of(error@, list[i]);
                    if tells_of(error@, list[i]) {
                        assert(list.contains(path@));
                    }
                }
            }
        } else {
            proof {
                assert forall|i: int| 0 <= i < list.len() && #[trigger] list[i].len()
                    == at implies !tells_of(error@, list[i]) by {
                    lemma_tells_of(error@, list[i]);
                }
            }
        }
        at = at + 1;
    }
    proof {
        assert forall|i: int| 0 <= i < list.len() implies !#[trigger] tells_of(
            error@,
            list[i],
        ) by {
            lemma_tells_of(error@, list[i]);
        }
    }
    false
}

/// Drop the diagnostics of paths that were removed. Each diagnostic is looked up by the texts
/// before its separators, so that many removals stay cheap.
pub fn discard_removed_path_errors(errors: &mut Vec<String>, removed: &[String])
    ensures
        text::texts(final(errors)@) == text::kept_texts(
            text::texts(old(errors)@),
            |error: Seq<char>| !tells_of_any(error, text::texts(removed@)),
        ),
{
    let ghost gone = text::texts(removed@);
    let ghost before = text::texts(errors@);
    let sorted = sort_distinct(copy_texts(removed));
    let ghost list = text::texts(sorted@);
    proof {
        text_order::lemma_sorted_exists(gone);
        assert forall|error: Seq<char>| #[trigger] tells_of_any(error, list) == tells_of_any(
            error,
            gone,
        ) by {
            if tells_of_any(error, list) {
                let i = choose|i: int| 0 <= i < list.len() && #[trigger] tells_of(error, list[i]);
                assert(list.to_set().contains(list[i]));
                assert(gone.to_set().contains(list[i]));
                let j = choose|j: int| 0 <= j < gone.len() && gone[j] == list[i];
                assert(tells_of(error, gone[j]));
            }
            if tells_of_any(error, gone) {
                let i = choose|i: int| 0 <= i < gone.len() && #[trigger] tells_of(error, gone[i]);
                assert(gone.to_set().contains(gone[i]));
                assert(list.to_set().contains(gone[i]));
                let j = choose|j: int| 0 <= j < list.len() && list[j] == gone[i];
                assert(tells_of(error, list[j]));
            }
        }
    }
    let keep = |error: &str| -> (kept: bool)
        ensures
            kept == !tells_of_any(error@, text::texts(sorted@)),
        { !tells_of_sorted(error, &sorted) };
    let kept = keep_texts(
        errors.as_slice(),
        keep,
        Ghost(|error: Seq<char>| !tells_of_any(error, gone)),
    );
    *errors = kept;
}

} // verus!
