//! The host's list of firmlinks.
//!
//! Each line names a directory at the root and, after white space, where it stands on the data
//! volume.
use crate::paths;
use crate::paths::component_texts;
use crate::query::lexer;
use crate::scanner::namespace::{among, Firmlink, DATA_ROOT};
use crate::text;
use crate::text::{chars_of, joined, split_text, text_of};
use vstd::prelude::*;

verus! {

/// Where white space ends from a place on.
pub open spec fn white_end(line: Seq<char>, from: int) -> int
    decreases line.len() - from,
{
    if from < 0 || from >= line.len() || !lexer::white_space(line[from]) {
        from
    } else {
        white_end(line, from + 1)
    }
}

/// Where a word ends from a place on.
pub open spec fn word_end(line: Seq<char>, from: int) -> int
    decreases line.len() - from,
{
    if from < 0 || from >= line.len() || lexer::white_space(line[from]) {
        from
    } else {
        word_end(line, from + 1)
    }
}

/// The word after white space from a place on, and where it ends.
pub open spec fn word_from(line: Seq<char>, from: int) -> Option<(Seq<char>, int)> {
    let start = white_end(line, from);
    let end = word_end(line, start);
    if start >= line.len() {
        None
    } else {
        Some((line.subrange(start, end), end))
    }
}

/// The physical and the logical name that a line gives.
pub open spec fn link_of(line: Seq<char>) -> Option<(Seq<char>, Seq<char>)> {
    match word_from(line, 0) {
        None => None,
        Some((logical, end)) => match word_from(line, end) {
            None => None,
            Some((target, _)) => if !paths::has_root(logical) || paths::has_root(target)
                || paths::components(target).contains(".."@) {
                None
            } else {
                Some((DATA_ROOT@ + "/"@ + target, logical))
            },
        },
    }
}

/// The names that some lines give, in their order.
pub open spec fn links_of(lines: Seq<Seq<char>>) -> Seq<(Seq<char>, Seq<char>)>
    decreases lines.len(),
{
    if lines.len() == 0 {
        Seq::empty()
    } else {
        let before = links_of(lines.drop_last());
        match link_of(lines.last()) {
            Some(link) => before.push(link),
            None => before,
        }
    }
}

/// How long a physical name is.
pub open spec fn length_of(link: (Seq<char>, Seq<char>)) -> nat {
    text::bytes_of(link.0).len()
}

/// The first link from a place on that is shorter than another, or the end.
pub open spec fn first_shorter(
    links: Seq<(Seq<char>, Seq<char>)>,
    link: (Seq<char>, Seq<char>),
    from: int,
) -> int
    decreases links.len() - from,
{
    if from < 0 || from >= links.len() || length_of(links[from]) < length_of(link) {
        from
    } else {
        first_shorter(links, link, from + 1)
    }
}

/// Links with longer physical names first; links with names of one length keep their order.
pub open spec fn longest_first(links: Seq<(Seq<char>, Seq<char>)>) -> Seq<(Seq<char>, Seq<char>)>
    decreases links.len(),
{
    if links.len() == 0 {
        Seq::empty()
    } else {
        let before = longest_first(links.drop_last());
        before.insert(first_shorter(before, links.last(), 0), links.last())
    }
}

/// The names of some links.
pub open spec fn names_of(links: Seq<Firmlink>) -> Seq<(Seq<char>, Seq<char>)> {
    links.map_values(|link: Firmlink| (link.physical@, link.logical@))
}

proof fn lemma_first_shorter(
    links: Seq<(Seq<char>, Seq<char>)>,
    link: (Seq<char>, Seq<char>),
    from: int,
)
    requires
        0 <= from <= links.len(),
    ensures
        from <= first_shorter(links, link, from) <= links.len(),
        forall|i: int|
            from <= i < first_shorter(links, link, from) ==> length_of(#[trigger] links[i])
                >= length_of(link),
        first_shorter(links, link, from) < links.len() ==> length_of(
            links[first_shorter(links, link, from)],
        ) < length_of(link),
    decreases links.len() - from,
{
    if from < links.len() && length_of(links[from]) >= length_of(link) {
        lemma_first_shorter(links, link, from + 1);
    }
}

/// The word after white space from a place on, and where it ends.
fn next_word(chars: &Vec<char>, from: usize) -> (word: Option<(String, usize)>)
    requires
        from <= chars@.len(),
    ensures
        match word_from(chars@, from as int) {
            Some((text, end)) => word matches Some(found) && found.0@ == text && found.1 == end
                && end <= chars@.len(),
            None => word is None,
        },
{
    let mut start: usize = from;
    while start < chars.len() && chars[start].is_whitespace()
        invariant
            from <= start <= chars@.len(),
            white_end(chars@, from as int) == white_end(chars@, start as int),
        decreases chars@.len() - start,
    {
        start = start + 1;
    }
    if start == chars.len() {
        return None;
    }
    let mut end: usize = start;
    while end < chars.len() && !chars[end].is_whitespace()
        invariant
            start <= end <= chars@.len(),
            word_end(chars@, start as int) == word_end(chars@, end as int),
        decreases chars@.len() - end,
    {
        end = end + 1;
    }
    Some((text_of(chars, start, end), end))
}

/// The link that a line gives. Whether both names are one object is not known yet.
fn read_link(line: &str) -> (link: Option<Firmlink>)
    ensures
        match link_of(line@) {
            Some((physical, logical)) => link matches Some(found) && found.physical@ == physical
                && found.logical@ == logical && !found.verified,
            None => link is None,
        },
{
    let chars = chars_of(line);
    let (logical, end) = match next_word(&chars, 0) {
        Some(found) => found,
        None => {
            return None;
        },
    };
    let target = match next_word(&chars, end) {
        Some((target, _)) => target,
        None => {
            return None;
        },
    };
    let parts = component_texts(target.as_str());
    if !paths::is_absolute(logical.as_str()) || paths::is_absolute(target.as_str()) || among(
        parts.as_slice(),
        "..",
    ) {
        return None;
    }
    let start = joined(DATA_ROOT, "/");
    let physical = joined(start.as_str(), target.as_str());
    Some(Firmlink { physical, logical, verified: false })
}

/// The firmlinks that a list names, longer physical names first. Whether the names of each are
/// one object is not known yet. A line that names no link is left out.
pub fn read_firmlinks(list: &str) -> (links: Vec<Firmlink>)
    ensures
        names_of(links@) == longest_first(links_of(text::split_on(list@, '\n'))),
        forall|i: int| 0 <= i < links@.len() ==> !(#[trigger] links@[i]).verified,
{
    let lines = split_text(list, '\n');
    let ghost all = text::split_on(list@, '\n');
    let mut links: Vec<Firmlink> = Vec::new();
    let mut next: usize = 0;
    assert(names_of(links@) =~= Seq::empty());
    assert(all.take(0) =~= Seq::empty());
    while next < lines.len()
        invariant
            next <= lines@.len(),
            all == text::texts(lines@),
            names_of(links@) == longest_first(links_of(all.take(next as int))),
            forall|i: int| 0 <= i < links@.len() ==> !(#[trigger] links@[i]).verified,
        decreases lines@.len() - next,
    {
        let ghost part = all.take(next + 1);
        proof {
            assert(part.drop_last() =~= all.take(next as int));
            assert(part.last() == lines@[next as int]@);
        }
        if let Some(link) = read_link(lines[next].as_str()) {
            let ghost before = names_of(links@);
            let ghost name = (link.physical@, link.logical@);
            proof {
                let found = links_of(part);
                assert(found.drop_last() =~= links_of(all.take(next as int)));
                assert(found.last() == name);
                lemma_first_shorter(before, name, 0);
            }
            let length = link.physical.as_str().as_bytes().len();
            let mut at: usize = 0;
            while at < links.len() && links[at].physical.as_str().as_bytes().len() >= length
                invariant
                    at <= links@.len(),
                    before == names_of(links@),
                    name.0 == link.physical@,
                    length == length_of(name),
                    first_shorter(before, name, 0) == first_shorter(before, name, at as int),
                decreases links@.len() - at,
            {
                assert(before[at as int].0 == links@[at as int].physical@);
                at = at + 1;
            }
            proof {
                if at < links@.len() {
                    assert(before[at as int].0 == links@[at as int].physical@);
                }
            }
            let ghost old_links = links@;
            links.insert(at, link);
            assert(names_of(links@) =~= before.insert(at as int, name));
        }
        next = next + 1;
    }
    assert(all.take(next as int) =~= all);
    links
}

/// Links are tried from the longest physical name down, and none is lost.
pub proof fn law_longer_names_come_first(links: Seq<(Seq<char>, Seq<char>)>)
    ensures
        forall|i: int, j: int|
            0 <= i <= j < longest_first(links).len() ==> length_of(
                #[trigger] longest_first(links)[i],
            ) >= length_of(#[trigger] longest_first(links)[j]),
        longest_first(links).to_multiset() == links.to_multiset(),
    decreases links.len(),
{
    if links.len() > 0 {
        let before = longest_first(links.drop_last());
        let link = links.last();
        law_longer_names_come_first(links.drop_last());
        lemma_first_shorter(before, link, 0);
        let at = first_shorter(before, link, 0);
        let after = before.insert(at, link);
        assert forall|i: int, j: int| 0 <= i <= j < after.len() implies length_of(
            #[trigger] after[i],
        ) >= length_of(#[trigger] after[j]) by {
            let before_at = |k: int|
                if k < at {
                    k
                } else {
                    k - 1
                };
            if i != at && j != at {
                assert(after[i] == before[before_at(i)] && after[j] == before[before_at(j)]);
            } else if i == at && j > at {
                assert(after[j] == before[j - 1]);
                assert(length_of(before[at]) >= length_of(before[j - 1]));
            } else if j == at && i < at {
                assert(after[i] == before[i]);
            }
        }
        before.to_multiset_ensures();
        vstd::seq_lib::to_multiset_insert(before, at, link);
        vstd::seq_lib::to_multiset_build(links.drop_last(), link);
        assert(links.drop_last().push(link) =~= links);
    } else {
        assert(links =~= Seq::empty());
    }
}

} // verus!
