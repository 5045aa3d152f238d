//! Which directory an entry belongs to, and what a directory holds.
use crate::files::IndexedFile;
use crate::paths;
use crate::text_order;
use vstd::prelude::*;

verus! {

/// A path lies above another: it is its parent, or its parent's parent, and so on.
pub open spec fn lies_above(dir: Seq<char>, path: Seq<char>) -> bool
    decreases path.len(),
{
    match paths::parent_path(path) {
        Some(up) => up.len() < path.len() && (up == dir || lies_above(dir, up)),
        None => false,
    }
}

/// A path is another or lies above it.
pub open spec fn at_or_above(dir: Seq<char>, path: Seq<char>) -> bool {
    dir == path || lies_above(dir, path)
}

pub proof fn lemma_above_shorter(dir: Seq<char>, path: Seq<char>)
    requires
        lies_above(dir, path),
    ensures
        dir.len() < path.len(),
    decreases path.len(),
{
    let up = paths::parent_path(path)->0;
    if up != dir {
        lemma_above_shorter(dir, up);
    }
}

pub proof fn lemma_above_transitive(a: Seq<char>, b: Seq<char>, c: Seq<char>)
    requires
        lies_above(a, b),
        lies_above(b, c),
    ensures
        lies_above(a, c),
    decreases c.len(),
{
    let up = paths::parent_path(c)->0;
    if up != b {
        lemma_above_transitive(a, b, up);
    }
}

/// A parent is the beginning of the path.
proof fn lemma_parent_begins(path: Seq<char>)
    ensures
        paths::parent_path(path) matches Some(up) ==> up.len() < path.len() && up == path.take(
            up.len() as int,
        ),
{
    paths::lemma_parent_shorter(path);
    if let Some(up) = paths::parent_path(path) {
        paths::lemma_parent_is_prefix(path);
    }
}

/// What lies above comes first in the order of bytes.
pub proof fn lemma_above_comes_first(dir: Seq<char>, path: Seq<char>)
    requires
        lies_above(dir, path),
    ensures
        text_order::text_before(dir, path),
    decreases path.len(),
{
    let up = paths::parent_path(path)->0;
    lemma_parent_begins(path);
    text_order::lemma_beginning_comes_first(path, up.len() as int);
    if up != dir {
        lemma_above_comes_first(dir, up);
        text_order::lemma_text_transitive(dir, up, path);
    }
}

/// The closest of some directories above a path.
pub open spec fn nearest(dirs: Seq<Seq<char>>, path: Seq<char>) -> Option<int>
    decreases path.len(),
{
    match paths::parent_path(path) {
        Some(up) => if up.len() >= path.len() {
            None
        } else if dirs.contains(up) {
            Some(dirs.index_of(up))
        } else {
            nearest(dirs, up)
        },
        None => None,
    }
}

pub proof fn lemma_nearest(dirs: Seq<Seq<char>>, path: Seq<char>)
    ensures
        nearest(dirs, path) matches Some(i) ==> 0 <= i < dirs.len() && lies_above(dirs[i], path),
    decreases path.len(),
{
    if let Some(up) = paths::parent_path(path) {
        if up.len() < path.len() {
            if dirs.contains(up) {
                let i = dirs.index_of(up);
                assert(0 <= i < dirs.len() && dirs[i] == up);
            } else {
                lemma_nearest(dirs, up);
            }
        }
    }
}

/// Nothing stands between a path and its closest directory.
pub proof fn lemma_nearest_is_closest(dirs: Seq<Seq<char>>, path: Seq<char>, d: int)
    requires
        0 <= d < dirs.len(),
        lies_above(dirs[d], path),
        text_order::ascending(dirs),
    ensures
        nearest(dirs, path) matches Some(i) && (i == d || lies_above(dirs[d], dirs[i])),
    decreases path.len(),
{
    let up = paths::parent_path(path)->0;
    if dirs.contains(up) {
        let i = dirs.index_of(up);
        assert(dirs[i] == up);
        if up == dirs[d] {
            lemma_same_directory(dirs, i, d);
        }
    } else {
        assert(up != dirs[d]) by {
            if up == dirs[d] {
                assert(dirs.contains(up));
            }
        }
        lemma_nearest_is_closest(dirs, up, d);
    }
}

pub proof fn lemma_same_directory(dirs: Seq<Seq<char>>, i: int, j: int)
    requires
        text_order::ascending(dirs),
        0 <= i < dirs.len(),
        0 <= j < dirs.len(),
        dirs[i] == dirs[j],
    ensures
        i == j,
{
    text_order::lemma_text_order(dirs[i], dirs[j]);
    if i < j {
        assert(text_order::text_before(dirs[i], dirs[j]));
    } else if j < i {
        assert(text_order::text_before(dirs[j], dirs[i]));
    }
}

/// A directory that lies above another comes before it.
pub proof fn lemma_above_has_lower_index(dirs: Seq<Seq<char>>, d: int, x: int)
    requires
        text_order::ascending(dirs),
        0 <= d < dirs.len(),
        0 <= x < dirs.len(),
        lies_above(dirs[d], dirs[x]),
    ensures
        d < x,
{
    lemma_above_comes_first(dirs[d], dirs[x]);
    text_order::lemma_text_order(dirs[d], dirs[x]);
    if d > x {
        assert(text_order::text_before(dirs[x], dirs[d]));
    }
}

/// The way from a path up to a directory leads only through directories from `from` on.
pub open spec fn leads_to(dirs: Seq<Seq<char>>, from: int, path: Seq<char>, d: int) -> bool
    decreases path.len(),
{
    match nearest(dirs, path) {
        Some(c) => c == d || (from <= c < dirs.len() && dirs[c].len() < path.len() && leads_to(
            dirs,
            from,
            dirs[c],
            d,
        )),
        None => false,
    }
}

/// What is reached through directories lies below.
pub proof fn lemma_via_is_above(dirs: Seq<Seq<char>>, from: int, path: Seq<char>, d: int)
    requires
        leads_to(dirs, from, path, d),
    ensures
        0 <= d < dirs.len(),
        lies_above(dirs[d], path),
    decreases path.len(),
{
    lemma_nearest(dirs, path);
    let c = nearest(dirs, path)->0;
    if c != d {
        lemma_via_is_above(dirs, from, dirs[c], d);
        lemma_above_transitive(dirs[d], dirs[c], path);
    }
}

/// Through all directories, everything below is reached.
pub proof fn lemma_via_all(dirs: Seq<Seq<char>>, path: Seq<char>, d: int)
    requires
        text_order::ascending(dirs),
        0 <= d < dirs.len(),
    ensures
        leads_to(dirs, 0, path, d) == lies_above(dirs[d], path),
    decreases path.len(),
{
    if leads_to(dirs, 0, path, d) {
        lemma_via_is_above(dirs, 0, path, d);
    }
    if lies_above(dirs[d], path) {
        lemma_nearest_is_closest(dirs, path, d);
        lemma_nearest(dirs, path);
        let c = nearest(dirs, path)->0;
        if c != d {
            lemma_above_shorter(dirs[c], path);
            lemma_via_all(dirs, dirs[c], d);
        }
    }
}

/// Opening the way through one more directory brings what it holds to its own directory, and
/// nowhere else.
pub proof fn lemma_via_step(dirs: Seq<Seq<char>>, x: int, path: Seq<char>, d: int)
    requires
        text_order::ascending(dirs),
        0 <= x < dirs.len(),
        0 <= d < dirs.len(),
    ensures
        nearest(dirs, dirs[x]) == Some(d) ==> leads_to(dirs, x, path, d) == (leads_to(dirs, x + 1, path, d)
            || leads_to(dirs, x + 1, path, x)),
        nearest(dirs, dirs[x]) != Some(d) ==> leads_to(dirs, x, path, d) == leads_to(dirs, x + 1, path, d),
        nearest(dirs, dirs[x]) == Some(d) ==> !(leads_to(dirs, x + 1, path, d) && leads_to(
            dirs,
            x + 1,
            path,
            x,
        )),
    decreases path.len(),
{
    lemma_nearest(dirs, path);
    lemma_nearest(dirs, dirs[x]);
    if let Some(p) = nearest(dirs, dirs[x]) {
        lemma_above_has_lower_index(dirs, p, x);
    }
    if let Some(c) = nearest(dirs, path) {
        lemma_above_shorter(dirs[c], path);
        if c == d {
            // The way to the directory ends here; it cannot also lead through `x`.
            if leads_to(dirs, x + 1, path, x) && nearest(dirs, dirs[x]) == Some(d) {
                if c != x {
                    lemma_via_is_above(dirs, x + 1, dirs[c], x);
                    lemma_above_has_lower_index(dirs, x, c);
                }
            }
        } else if c == x {
            if let Some(p) = nearest(dirs, dirs[x]) {
                assert(p < x);
            }
            assert(leads_to(dirs, x, dirs[x], d) == (nearest(dirs, dirs[x]) == Some(d)));
        } else if c > x {
            lemma_via_step(dirs, x, dirs[c], d);
        }
    }
}

/// What is counted of an entry.
#[derive(Clone, Copy)]
pub enum Tally {
    Files,
    Folders,
    Size,
    OwnFiles,
    OwnFolders,
}

/// An entry that can hold others.
pub open spec fn is_folder(file: IndexedFile) -> bool {
    file.is_dir && !file.is_symlink
}

/// An entry stands directly in a directory.
pub open spec fn directly_in(dirs: Seq<Seq<char>>, path: Seq<char>, d: int) -> bool {
    nearest(dirs, path) == Some(d) && paths::parent_path(path) == Some(dirs[d])
}

/// What an entry adds to a directory when the way leads through directories from `from` on.
pub open spec fn weight(
    dirs: Seq<Seq<char>>,
    from: int,
    file: IndexedFile,
    d: int,
    tally: Tally,
) -> int {
    let counted = match tally {
        Tally::Files => !is_folder(file) && leads_to(dirs, from, file.path@, d),
        Tally::Folders => is_folder(file) && leads_to(dirs, from, file.path@, d),
        Tally::Size => !is_folder(file) && leads_to(dirs, from, file.path@, d),
        Tally::OwnFiles => !is_folder(file) && directly_in(dirs, file.path@, d),
        Tally::OwnFolders => is_folder(file) && directly_in(dirs, file.path@, d),
    };
    if !counted {
        0
    } else if tally is Size {
        file.size as int
    } else {
        1
    }
}

/// What some entries add to a directory.
pub open spec fn total(
    rows: Seq<IndexedFile>,
    slots: Seq<u32>,
    dirs: Seq<Seq<char>>,
    from: int,
    d: int,
    tally: Tally,
) -> int
    decreases slots.len(),
{
    if slots.len() == 0 {
        0
    } else {
        total(rows, slots.drop_last(), dirs, from, d, tally) + weight(
            dirs,
            from,
            rows[slots.last() as int],
            d,
            tally,
        )
    }
}

pub proof fn lemma_total_bounds(
    rows: Seq<IndexedFile>,
    slots: Seq<u32>,
    dirs: Seq<Seq<char>>,
    from: int,
    d: int,
)
    ensures
        0 <= total(rows, slots, dirs, from, d, Tally::Files),
        0 <= total(rows, slots, dirs, from, d, Tally::Folders),
        0 <= total(rows, slots, dirs, from, d, Tally::Size),
        total(rows, slots, dirs, from, d, Tally::Files) + total(
            rows,
            slots,
            dirs,
            from,
            d,
            Tally::Folders,
        ) <= slots.len(),
        0 <= total(rows, slots, dirs, from, d, Tally::OwnFiles),
        0 <= total(rows, slots, dirs, from, d, Tally::OwnFolders),
        total(rows, slots, dirs, from, d, Tally::OwnFiles) + total(
            rows,
            slots,
            dirs,
            from,
            d,
            Tally::OwnFolders,
        ) <= slots.len(),
    decreases slots.len(),
{
    if slots.len() > 0 {
        lemma_total_bounds(rows, slots.drop_last(), dirs, from, d);
    }
}

/// Opening the way through one more directory adds what it holds to its own directory.
pub proof fn lemma_total_step(
    rows: Seq<IndexedFile>,
    slots: Seq<u32>,
    dirs: Seq<Seq<char>>,
    x: int,
    d: int,
    tally: Tally,
)
    requires
        text_order::ascending(dirs),
        0 <= x < dirs.len(),
        0 <= d < dirs.len(),
        tally is Files || tally is Folders || tally is Size,
    ensures
        total(rows, slots, dirs, x, d, tally) == total(rows, slots, dirs, x + 1, d, tally) + (
        if nearest(dirs, dirs[x]) == Some(d) {
            total(rows, slots, dirs, x + 1, x, tally)
        } else {
            0
        }),
    decreases slots.len(),
{
    if slots.len() > 0 {
        lemma_total_step(rows, slots.drop_last(), dirs, x, d, tally);
        lemma_via_step(dirs, x, rows[slots.last() as int].path@, d);
    }
}

/// What a directory holds at any depth, by definition.
pub open spec fn held(file: IndexedFile, dir: Seq<char>, tally: Tally) -> int {
    let inside = lies_above(dir, file.path@);
    match tally {
        Tally::Files => if inside && !is_folder(file) {
            1
        } else {
            0
        },
        Tally::Folders => if inside && is_folder(file) {
            1
        } else {
            0
        },
        _ => if inside && !is_folder(file) {
            file.size as int
        } else {
            0
        },
    }
}

pub open spec fn all_held(
    rows: Seq<IndexedFile>,
    slots: Seq<u32>,
    dir: Seq<char>,
    tally: Tally,
) -> int
    decreases slots.len(),
{
    if slots.len() == 0 {
        0
    } else {
        all_held(rows, slots.drop_last(), dir, tally) + held(
            rows[slots.last() as int],
            dir,
            tally,
        )
    }
}

/// The totals of a directory are those of all entries below it, however deep and whether or
/// not the directories in between are indexed.
pub proof fn law_totals_are_of_everything_below(
    rows: Seq<IndexedFile>,
    slots: Seq<u32>,
    dirs: Seq<Seq<char>>,
    d: int,
    tally: Tally,
)
    requires
        text_order::ascending(dirs),
        0 <= d < dirs.len(),
        tally is Files || tally is Folders || tally is Size,
    ensures
        total(rows, slots, dirs, 0, d, tally) == all_held(rows, slots, dirs[d], tally),
    decreases slots.len(),
{
    if slots.len() > 0 {
        law_totals_are_of_everything_below(rows, slots.drop_last(), dirs, d, tally);
        lemma_via_all(dirs, rows[slots.last() as int].path@, d);
    }
}

} // verus!
