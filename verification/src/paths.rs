//! Paths as texts: their components, parents and prefixes, on systems that separate by `/`.
//!
//! Repeated separators and `.` components mean nothing, except for a `.` that begins a
//! relative path; `..` is a component like any other and is never resolved here.
use crate::text;
use crate::text::{chars_of, same_text, split_text, strip_last, text_of};
use vstd::prelude::*;

verus! {

pub open spec fn has_root(path: Seq<char>) -> bool {
    path.len() > 0 && path[0] == '/'
}

/// A relative path that begins with a `.` component.
pub open spec fn leading_dot(path: Seq<char>) -> bool {
    path.len() > 0 && path[0] == '.' && (path.len() == 1 || path[1] == '/')
}

/// Where the part after the root, or after the leading `.`, begins.
pub open spec fn body_start(path: Seq<char>) -> int {
    if has_root(path) || leading_dot(path) {
        1
    } else {
        0
    }
}

/// Whether a piece between separators is a component.
pub open spec fn is_component(piece: Seq<char>) -> bool {
    piece.len() > 0 && piece != seq!['.']
}

/// The pieces that are components.
pub open spec fn real_pieces(pieces: Seq<Seq<char>>) -> Seq<Seq<char>>
    decreases pieces.len(),
{
    if pieces.len() == 0 {
        pieces
    } else if is_component(pieces.last()) {
        real_pieces(pieces.drop_last()).push(pieces.last())
    } else {
        real_pieces(pieces.drop_last())
    }
}

/// The components of a path. The root is the component `/`.
pub open spec fn components(path: Seq<char>) -> Seq<Seq<char>> {
    path.take(body_start(path)).map_values(|c: char| seq![c]) + real_pieces(
        text::split_on(path.skip(body_start(path)), '/'),
    )
}

/// The components of `base` are the first components of `path`.
pub open spec fn path_starts_with(path: Seq<char>, base: Seq<char>) -> bool {
    components(base).is_prefix_of(components(path))
}

/// The text of a path up to `end`, without the last piece: where that piece begins.
pub open spec fn piece_start(path: Seq<char>, start: int, end: int) -> int
    decreases end - start,
{
    if end <= start {
        start
    } else if path[end - 1] == '/' {
        end
    } else {
        piece_start(path, start, end - 1)
    }
}

/// The end of `path[start..end]` without the pieces at its end that are no components.
pub open spec fn trimmed_end(path: Seq<char>, start: int, end: int) -> int
    decreases end - start,
{
    if end <= start {
        start
    } else {
        let at = piece_start(path, start, end);
        if is_component(path.subrange(at, end)) {
            end
        } else if start < at <= end {
            trimmed_end(path, start, at - 1)
        } else {
            start
        }
    }
}

/// The path without its last component, where it has one besides the root.
pub open spec fn parent_path(path: Seq<char>) -> Option<Seq<char>> {
    let start = body_start(path);
    let end = trimmed_end(path, start, path.len() as int);
    if end > start {
        let at = piece_start(path, start, end);
        Some(path.take(trimmed_end(path, start, at - 1)))
    } else if leading_dot(path) {
        Some(Seq::empty())
    } else {
        None
    }
}

proof fn lemma_piece_start(path: Seq<char>, start: int, end: int)
    requires
        0 <= start <= end <= path.len(),
    ensures
        start <= piece_start(path, start, end) <= end,
        piece_start(path, start, end) > start ==> path[piece_start(path, start, end) - 1] == '/',
    decreases end - start,
{
    if end > start && path[end - 1] != '/' {
        lemma_piece_start(path, start, end - 1);
    }
}

proof fn lemma_trimmed_end(path: Seq<char>, start: int, end: int)
    requires
        0 <= start <= path.len(),
        end <= path.len(),
    ensures
        start <= trimmed_end(path, start, end) <= path.len(),
        end >= start ==> trimmed_end(path, start, end) <= end,
    decreases end - start,
{
    if end > start {
        lemma_piece_start(path, start, end);
        let at = piece_start(path, start, end);
        if !is_component(path.subrange(at, end)) && start < at {
            lemma_trimmed_end(path, start, at - 1);
        }
    }
}

fn find_piece(path: &Vec<char>, start: usize, end: usize) -> (at: usize)
    requires
        start <= end <= path@.len(),
    ensures
        at == piece_start(path@, start as int, end as int),
        start <= at <= end,
{
    let mut at: usize = end;
    while at > start && path[at - 1] != '/'
        invariant
            start <= at <= end <= path@.len(),
            piece_start(path@, start as int, at as int) == piece_start(
                path@,
                start as int,
                end as int,
            ),
        decreases at,
    {
        at = at - 1;
    }
    at
}

fn component_at(path: &Vec<char>, at: usize, end: usize) -> (found: bool)
    requires
        at <= end <= path@.len(),
    ensures
        found == is_component(path@.subrange(at as int, end as int)),
{
    let ghost piece = path@.subrange(at as int, end as int);
    if end == at {
        return false;
    }
    if end - at == 1 {
        assert(piece.len() == 1 && piece[0] == path@[at as int]);
        if path[at] == '.' {
            assert(piece =~= seq!['.']);
            return false;
        }
    }
    true
}

fn trim_end(path: &Vec<char>, start: usize, end: usize) -> (trimmed: usize)
    requires
        start <= end <= path@.len(),
    ensures
        trimmed == trimmed_end(path@, start as int, end as int),
        start <= trimmed <= end,
{
    let mut trimmed: usize = end;
    while trimmed > start
        invariant
            start <= trimmed <= end <= path@.len(),
            trimmed_end(path@, start as int, trimmed as int) == trimmed_end(
                path@,
                start as int,
                end as int,
            ),
        decreases trimmed,
    {
        let at = find_piece(path, start, trimmed);
        if component_at(path, at, trimmed) {
            return trimmed;
        }
        if at == start {
            return start;
        }
        trimmed = at - 1;
    }
    trimmed
}

/// Whether a path is relative and begins with `.`, and where its body starts.
fn body_of(path: &Vec<char>) -> (body: (bool, usize))
    ensures
        body.0 == leading_dot(path@),
        body.1 == body_start(path@),
        body.1 <= path@.len(),
{
    let dotted = path.len() > 0 && path[0] == '.' && (path.len() == 1 || path[1] == '/');
    let rooted = path.len() > 0 && path[0] == '/';
    if dotted || rooted {
        (dotted, 1)
    } else {
        (dotted, 0)
    }
}

/// A parent is shorter than its child.
pub proof fn lemma_parent_shorter(path: Seq<char>)
    ensures
        parent_path(path) matches Some(up) ==> up.len() < path.len(),
{
    let start = body_start(path);
    lemma_trimmed_end(path, start, path.len() as int);
    let end = trimmed_end(path, start, path.len() as int);
    if end > start {
        lemma_piece_start(path, start, end);
        let at = piece_start(path, start, end);
        lemma_trimmed_end(path, start, at - 1);
        if at == end {
            lemma_trimmed_end_proper(path, start, path.len() as int);
        }
    }
}

/// What is left after trimming ends in a component.
proof fn lemma_trimmed_end_proper(path: Seq<char>, start: int, end: int)
    requires
        0 <= start <= path.len(),
        end <= path.len(),
        trimmed_end(path, start, end) > start,
    ensures
        ({
            let trimmed = trimmed_end(path, start, end);
            is_component(path.subrange(piece_start(path, start, trimmed), trimmed))
        }),
    decreases end - start,
{
    let at = piece_start(path, start, end);
    if !is_component(path.subrange(at, end)) {
        lemma_trimmed_end_proper(path, start, at - 1);
    }
}

/// The path without its last component, where it has one besides the root.
pub fn parent(path: &str) -> (result: Option<String>)
    ensures
        match parent_path(path@) {
            Some(up) => result matches Some(text) && text@ == up,
            None => result is None,
        },
        result matches Some(text) ==> text@.len() < path@.len(),
{
    proof {
        lemma_parent_shorter(path@);
    }
    let chars = chars_of(path);
    let (dotted, start) = body_of(&chars);
    let end = trim_end(&chars, start, chars.len());
    if end > start {
        let at = find_piece(&chars, start, end);
        let cut = if at > start {
            trim_end(&chars, start, at - 1)
        } else {
            start
        };
        let up = text_of(&chars, 0, cut);
        assert(up@ =~= path@.take(cut as int));
        Some(up)
    } else if dotted {
        let empty = String::new();
        assert(empty@ =~= Seq::<char>::empty());
        Some(empty)
    } else {
        None
    }
}

/// The components of a path.
pub fn component_texts(path: &str) -> (parts: Vec<String>)
    ensures
        text::texts(parts@) == components(path@),
{
    let chars = chars_of(path);
    let (_, start) = body_of(&chars);
    let mut parts: Vec<String> = Vec::new();
    let ghost head = path@.take(start as int).map_values(|c: char| seq![c]);
    if start == 1 {
        let first = text_of(&chars, 0, 1);
        assert(first@ =~= seq![path@[0]]);
        parts.push(first);
        assert(text::texts(parts@) =~= head);
    } else {
        assert(text::texts(parts@) =~= head);
    }
    let body = text_of(&chars, start, chars.len());
    assert(body@ =~= path@.skip(start as int));
    let pieces = split_text(body.as_str(), '/');
    let ghost all = text::split_on(body@, '/');
    let mut next: usize = 0;
    assert(text::texts(parts@) =~= head + real_pieces(all.take(0)));
    while next < pieces.len()
        invariant
            next <= pieces@.len(),
            text::texts(pieces@) == all,
            text::texts(parts@) == head + real_pieces(all.take(next as int)),
        decreases pieces@.len() - next,
    {
        let piece = &pieces[next];
        let ghost part = all.take(next + 1);
        let ghost before = parts@;
        assert(part.drop_last() =~= all.take(next as int));
        assert(part.last() == piece@);
        proof {
            reveal_strlit(".");
            assert("."@ =~= seq!['.']);
        }
        if !piece.as_str().is_empty() && !same_text(piece.as_str(), ".") {
            let copy = piece.clone();
            parts.push(copy);
            assert(text::texts(parts@) =~= text::texts(before).push(piece@));
            assert(text::texts(parts@) =~= head + real_pieces(part));
        }
        next = next + 1;
    }
    assert(all.take(next as int) =~= all);
    parts
}

/// Whether the components in `base` begin those in `path`.
fn begins_with(path: &Vec<String>, base: &Vec<String>) -> (yes: bool)
    ensures
        yes == text::texts(base@).is_prefix_of(text::texts(path@)),
{
    let ghost (long, short) = (text::texts(path@), text::texts(base@));
    if base.len() > path.len() {
        return false;
    }
    let mut next: usize = 0;
    while next < base.len()
        invariant
            next <= base@.len() <= path@.len(),
            long == text::texts(path@),
            short == text::texts(base@),
            forall|i: int| 0 <= i < next ==> long[i] == short[i],
        decreases base@.len() - next,
    {
        if !same_text(path[next].as_str(), base[next].as_str()) {
            proof {
                assert(long[next as int] != short[next as int]);
                if short.is_prefix_of(long) {
                    assert(long.subrange(0, short.len() as int)[next as int] == short[next as int]);
                }
            }
            return false;
        }
        assert(long[next as int] == short[next as int]);
        next = next + 1;
    }
    assert(long.subrange(0, short.len() as int) =~= short);
    true
}

/// Whether the components of `base` begin those of `path`.
pub fn starts_with(path: &str, base: &str) -> (yes: bool)
    ensures
        yes == path_starts_with(path@, base@),
{
    let (long, short) = (component_texts(path), component_texts(base));
    begins_with(&long, &short)
}

/// Whether two texts name the same path component by component.
pub fn same_path(a: &str, b: &str) -> (same: bool)
    ensures
        same == (components(a@) == components(b@)),
{
    let (x, y) = (component_texts(a), component_texts(b));
    if x.len() != y.len() {
        proof {
            assert(text::texts(x@).len() != text::texts(y@).len());
        }
        return false;
    }
    let same = begins_with(&x, &y);
    proof {
        let (long, short) = (text::texts(x@), text::texts(y@));
        if same {
            assert(long =~= short);
        } else if long == short {
            assert(long.subrange(0, long.len() as int) =~= long);
        }
    }
    same
}

/// Whether a path begins at the root.
pub fn is_absolute(path: &str) -> (absolute: bool)
    ensures
        absolute == has_root(path@),
{
    let chars = chars_of(path);
    chars.len() > 0 && chars[0] == '/'
}

/// Texts one after the other, each behind a separator.
pub open spec fn under(base: Seq<char>, parts: Seq<Seq<char>>) -> Seq<char>
    decreases parts.len(),
{
    if parts.len() == 0 {
        base
    } else {
        under(base, parts.drop_last()) + seq!['/'] + parts.last()
    }
}

/// The path from the root through these components.
pub open spec fn rooted(parts: Seq<Seq<char>>) -> Seq<char> {
    if parts.len() == 0 {
        seq!['/']
    } else {
        under(Seq::empty(), parts)
    }
}

/// The relative path through these components.
pub open spec fn relative(parts: Seq<Seq<char>>) -> Seq<char> {
    if parts.len() == 0 {
        Seq::empty()
    } else {
        under(parts[0], parts.drop_first())
    }
}

/// Components below the root after going up at each `..`; above the root is the root.
pub open spec fn resolved(parts: Seq<Seq<char>>) -> Seq<Seq<char>>
    decreases parts.len(),
{
    if parts.len() == 0 {
        parts
    } else {
        let before = resolved(parts.drop_last());
        let last = parts.last();
        if last == seq!['.', '.'] {
            if before.len() > 0 {
                before.drop_last()
            } else {
                before
            }
        } else if last == seq!['/'] || last == seq!['.'] {
            before
        } else {
            before.push(last)
        }
    }
}

/// A path from the root without `.` and `..`.
pub open spec fn lexical(path: Seq<char>) -> Seq<char> {
    rooted(resolved(components(path)))
}

/// The second path seen from the first: `std`'s `Path::join`.
pub open spec fn path_join(base: Seq<char>, rest: Seq<char>) -> Seq<char> {
    if has_root(rest) || base.len() == 0 {
        rest
    } else if text::ends_in(base, '/') {
        base + rest
    } else {
        base + seq!['/'] + rest
    }
}

/// `base` is `path` or above it.
pub open spec fn is_ancestor(base: Seq<char>, path: Seq<char>) -> bool {
    path_starts_with(path, base) && (components(base).len() > 0 || !has_root(path))
}

fn join_under(base: &str, parts: &Vec<String>, start: usize) -> (path: String)
    requires
        start <= parts@.len(),
    ensures
        path@ == under(base@, text::texts(parts@).skip(start as int)),
{
    let mut path = base.to_owned();
    let ghost rest = text::texts(parts@).skip(start as int);
    let mut next: usize = start;
    assert(rest.take(0) =~= Seq::<Seq<char>>::empty());
    while next < parts.len()
        invariant
            start <= next <= parts@.len(),
            rest == text::texts(parts@).skip(start as int),
            path@ == under(base@, rest.take(next - start)),
        decreases parts@.len() - next,
    {
        let ghost part = rest.take(next + 1 - start);
        assert(part.drop_last() =~= rest.take(next - start));
        assert(part.last() == parts@[next as int]@);
        let ghost before = path@;
        path.push('/');
        path.append(parts[next].as_str());
        assert(path@ =~= before + seq!['/'] + parts@[next as int]@);
        next = next + 1;
    }
    assert(rest.take(next - start) =~= rest);
    path
}

/// The path from the root through these components.
pub fn rooted_path(parts: &Vec<String>) -> (path: String)
    ensures
        path@ == rooted(text::texts(parts@)),
{
    let empty = String::new();
    assert(empty@ =~= Seq::<char>::empty());
    if parts.len() == 0 {
        let mut root = empty;
        root.push('/');
        assert(root@ =~= seq!['/']);
        return root;
    }
    assert(text::texts(parts@).skip(0) =~= text::texts(parts@));
    join_under(empty.as_str(), parts, 0)
}

/// The relative path through the components from `start` on.
pub fn relative_path(parts: &Vec<String>, start: usize) -> (path: String)
    requires
        start <= parts@.len(),
    ensures
        path@ == relative(text::texts(parts@).skip(start as int)),
{
    let ghost rest = text::texts(parts@).skip(start as int);
    if start == parts.len() {
        let empty = String::new();
        assert(empty@ =~= Seq::<char>::empty());
        return empty;
    }
    assert(rest.drop_first() =~= text::texts(parts@).skip(start + 1));
    assert(rest[0] == parts@[start as int]@);
    join_under(parts[start].as_str(), parts, start + 1)
}

/// Components below the root after going up at each `..`.
pub fn resolved_parts(parts: &Vec<String>) -> (below: Vec<String>)
    ensures
        text::texts(below@) == resolved(text::texts(parts@)),
{
    let ghost all = text::texts(parts@);
    let mut below: Vec<String> = Vec::new();
    let mut next: usize = 0;
    assert(all.take(0) =~= Seq::<Seq<char>>::empty());
    assert(text::texts(below@) =~= resolved(all.take(0)));
    while next < parts.len()
        invariant
            next <= parts@.len(),
            all == text::texts(parts@),
            text::texts(below@) == resolved(all.take(next as int)),
        decreases parts@.len() - next,
    {
        let ghost part = all.take(next + 1);
        let ghost before = below@;
        assert(part.drop_last() =~= all.take(next as int));
        assert(part.last() == parts@[next as int]@);
        proof {
            reveal_strlit("..");
            reveal_strlit(".");
            reveal_strlit("/");
            assert(".."@ =~= seq!['.', '.']);
            assert("."@ =~= seq!['.']);
            assert("/"@ =~= seq!['/']);
        }
        let piece = parts[next].as_str();
        if same_text(piece, "..") {
            if below.len() > 0 {
                below.pop();
                assert(text::texts(below@) =~= text::texts(before).drop_last());
            }
        } else if !same_text(piece, "/") && !same_text(piece, ".") {
            let copy = parts[next].clone();
            below.push(copy);
            assert(text::texts(below@) =~= text::texts(before).push(piece@));
        }
        next = next + 1;
    }
    assert(all.take(next as int) =~= all);
    below
}

/// A path from the root without `.` and `..`.
pub fn lexical_path(path: &str) -> (out: String)
    ensures
        out@ == lexical(path@),
{
    let parts = component_texts(path);
    let below = resolved_parts(&parts);
    rooted_path(&below)
}

/// The second path seen from the first.
pub fn join(base: &str, rest: &str) -> (path: String)
    ensures
        path@ == path_join(base@, rest@),
{
    if is_absolute(rest) || base.is_empty() {
        return rest.to_owned();
    }
    let mut path = base.to_owned();
    if strip_last(base, '/').is_none() {
        path.push('/');
    }
    path.append(rest);
    assert(path@ =~= path_join(base@, rest@));
    path
}

/// Whether `base` is `path` or above it.
pub fn covers(base: &str, path: &str) -> (yes: bool)
    ensures
        yes == is_ancestor(base@, path@),
{
    let (long, short) = (component_texts(path), component_texts(base));
    assert(text::texts(short@).len() == short@.len());
    begins_with(&long, &short) && (short.len() > 0 || !is_absolute(path))
}

/// The pieces between separators hold no separator.
proof fn lemma_pieces_plain(body: Seq<char>, c: char)
    ensures
        forall|i: int|
            0 <= i < text::split_on(body, c).len() ==> !(#[trigger] text::split_on(
                body,
                c,
            )[i]).contains(c),
    decreases body.len(),
{
    let at = text::first_at(body, c);
    let pieces = text::split_on(body, c);
    text::lemma_first_bounds(body, c);
    lemma_before_first(body, c);
    if at < body.len() {
        let rest = text::split_on(body.skip(at + 1), c);
        lemma_pieces_plain(body.skip(at + 1), c);
        assert forall|i: int| 0 <= i < pieces.len() implies !(#[trigger] pieces[i]).contains(c) by {
            if i > 0 {
                assert(pieces[i] == rest[i - 1]);
            } else {
                assert(pieces[0] == body.take(at));
            }
        }
    } else {
        assert(body.take(at) =~= body);
    }
}

proof fn lemma_before_first(body: Seq<char>, c: char)
    ensures
        0 <= text::first_at(body, c) <= body.len(),
        !body.take(text::first_at(body, c)).contains(c),
    decreases body.len(),
{
    if body.len() > 0 && body[0] != c {
        let rest = body.drop_first();
        lemma_before_first(rest, c);
        let at = text::first_at(rest, c);
        let head = body.take(at + 1);
        if head.contains(c) {
            let i = choose|i: int| 0 <= i < head.len() && head[i] == c;
            assert(i > 0);
            assert(rest.take(at)[i - 1] == c);
        }
    }
}

proof fn lemma_real_pieces(pieces: Seq<Seq<char>>, c: char)
    requires
        forall|i: int| 0 <= i < pieces.len() ==> !(#[trigger] pieces[i]).contains(c),
    ensures
        forall|i: int|
            0 <= i < real_pieces(pieces).len() ==> !(#[trigger] real_pieces(pieces)[i]).contains(c),
    decreases pieces.len(),
{
    if pieces.len() > 0 {
        let init = pieces.drop_last();
        assert forall|i: int| 0 <= i < init.len() implies !(#[trigger] init[i]).contains(c) by {
            assert(init[i] == pieces[i]);
        }
        lemma_real_pieces(init, c);
        let kept = real_pieces(init);
        assert(!pieces[pieces.len() - 1].contains(c));
        assert forall|i: int| 0 <= i < real_pieces(pieces).len() implies !(#[trigger] real_pieces(
            pieces,
        )[i]).contains(c) by {
            if i < kept.len() {
                assert(real_pieces(pieces)[i] == kept[i]);
            }
        }
    }
}

/// A path begins at the root exactly if its first component is the root.
pub proof fn lemma_root_component(path: Seq<char>)
    ensures
        has_root(path) == (components(path).len() > 0 && components(path)[0] == seq!['/']),
{
    let start = body_start(path);
    let head = path.take(start).map_values(|c: char| seq![c]);
    let pieces = text::split_on(path.skip(start), '/');
    lemma_pieces_plain(path.skip(start), '/');
    lemma_real_pieces(pieces, '/');
    let body = real_pieces(pieces);
    if start == 1 {
        assert(head[0] == seq![path[0]]);
        assert(components(path)[0] == seq![path[0]]);
        assert(seq![path[0]][0] == path[0]);
        assert(seq!['/'][0] == '/');
    } else if components(path).len() > 0 {
        assert(components(path)[0] == body[0]);
        assert(seq!['/'][0] == '/');
        assert(seq!['/'].contains('/'));
    }
}

/// What covers an ancestor covers what is below.
pub proof fn lemma_ancestor_transitive(a: Seq<char>, b: Seq<char>, c: Seq<char>)
    requires
        is_ancestor(a, b),
        is_ancestor(b, c),
    ensures
        is_ancestor(a, c),
{
    let (x, y, z) = (components(a), components(b), components(c));
    assert(z.subrange(0, y.len() as int) == y);
    assert(y.subrange(0, x.len() as int) == x);
    assert(z.subrange(0, x.len() as int) =~= y.subrange(0, x.len() as int));
    lemma_root_component(b);
    lemma_root_component(c);
    if x.len() == 0 && has_root(c) {
        if y.len() > 0 {
            assert(y[0] == z.subrange(0, y.len() as int)[0]);
        }
    }
}

/// The components of a text without root.
spec fn body_parts(body: Seq<char>) -> Seq<Seq<char>> {
    real_pieces(text::split_on(body, '/'))
}

proof fn lemma_split_joined(a: Seq<char>, b: Seq<char>)
    ensures
        text::split_on(a + seq!['/'] + b, '/') == text::split_on(a, '/') + text::split_on(b, '/'),
    decreases a.len(),
{
    let whole = a + seq!['/'] + b;
    let at = text::first_at(a, '/');
    text::lemma_first_bounds(a, '/');
    lemma_before_first(a, '/');
    assert forall|i: int| 0 <= i < at implies #[trigger] whole[i] != '/' by {
        assert(whole[i] == a[i]);
        assert(a.take(at)[i] == a[i]);
        if a[i] == '/' {
            assert(a.take(at).contains('/'));
        }
    }
    if at < a.len() {
        assert(whole[at] == '/');
        text::lemma_first_at(whole, '/', at);
        lemma_split_joined(a.skip(at + 1), b);
        assert(whole.skip(at + 1) =~= a.skip(at + 1) + seq!['/'] + b);
        assert(whole.take(at) =~= a.take(at));
        assert(text::split_on(whole, '/') =~= text::split_on(a, '/') + text::split_on(b, '/'));
    } else {
        assert(whole[at] == '/');
        text::lemma_first_at(whole, '/', at);
        assert(whole.skip(at + 1) =~= b);
        assert(whole.take(at) =~= a);
        assert(text::split_on(whole, '/') =~= text::split_on(a, '/') + text::split_on(b, '/'));
    }
}

proof fn lemma_real_joined(x: Seq<Seq<char>>, y: Seq<Seq<char>>)
    ensures
        real_pieces(x + y) == real_pieces(x) + real_pieces(y),
    decreases y.len(),
{
    if y.len() == 0 {
        assert(x + y =~= x);
        assert(real_pieces(x) + real_pieces(y) =~= real_pieces(x));
    } else {
        assert((x + y).drop_last() =~= x + y.drop_last());
        lemma_real_joined(x, y.drop_last());
        assert(real_pieces(x + y) =~= real_pieces(x) + real_pieces(y));
    }
}

proof fn lemma_plain_body(piece: Seq<char>)
    requires
        !piece.contains('/'),
    ensures
        body_parts(piece) == (if is_component(piece) {
            seq![piece]
        } else {
            Seq::empty()
        }),
{
    text::lemma_first_bounds(piece, '/');
    let at = text::first_at(piece, '/');
    if at < piece.len() {
        assert(piece[at] == '/');
        assert(piece.contains('/'));
    }
    let pieces = text::split_on(piece, '/');
    assert(pieces =~= seq![piece]);
    assert(pieces.drop_last() =~= Seq::<Seq<char>>::empty());
    assert(real_pieces(pieces.drop_last()) =~= Seq::<Seq<char>>::empty());
    assert(Seq::<Seq<char>>::empty().push(piece) =~= seq![piece]);
}

proof fn lemma_piece_plain(path: Seq<char>, start: int, end: int)
    requires
        0 <= start <= end <= path.len(),
    ensures
        !path.subrange(piece_start(path, start, end), end).contains('/'),
    decreases end - start,
{
    lemma_piece_start(path, start, end);
    if end > start && path[end - 1] != '/' {
        lemma_piece_start(path, start, end - 1);
        lemma_piece_plain(path, start, end - 1);
        let at = piece_start(path, start, end);
        let piece = path.subrange(at, end);
        if piece.contains('/') {
            let i = choose|i: int| 0 <= i < piece.len() && piece[i] == '/';
            assert(i < piece.len() - 1);
            assert(path.subrange(at, end - 1)[i] == '/');
        }
    }
}

/// The components up to a position: those before the last piece, and that piece if it is one.
proof fn lemma_last_piece(path: Seq<char>, start: int, end: int)
    requires
        0 <= start <= end <= path.len(),
    ensures
        ({
            let at = piece_start(path, start, end);
            let piece = path.subrange(at, end);
            let before = if at > start {
                body_parts(path.subrange(start, at - 1))
            } else {
                Seq::empty()
            };
            body_parts(path.subrange(start, end)) == (if is_component(piece) {
                before.push(piece)
            } else {
                before
            })
        }),
{
    lemma_piece_start(path, start, end);
    lemma_piece_plain(path, start, end);
    let at = piece_start(path, start, end);
    let piece = path.subrange(at, end);
    lemma_plain_body(piece);
    if at > start {
        let before = path.subrange(start, at - 1);
        assert(path.subrange(start, end) =~= before + seq!['/'] + piece);
        lemma_split_joined(before, piece);
        lemma_real_joined(text::split_on(before, '/'), text::split_on(piece, '/'));
        assert(body_parts(before) + Seq::empty() =~= body_parts(before));
        assert(body_parts(before) + seq![piece] =~= body_parts(before).push(piece));
    } else {
        assert(path.subrange(start, end) =~= piece);
        assert(Seq::<Seq<char>>::empty().push(piece) =~= seq![piece]);
    }
}

/// Trimming drops no component, and stops at a separator.
proof fn lemma_trimmed_parts(path: Seq<char>, start: int, end: int)
    requires
        0 <= start <= end <= path.len(),
        end < path.len() ==> path[end] == '/',
    ensures
        ({
            let trimmed = trimmed_end(path, start, end);
            &&& start <= trimmed <= end
            &&& body_parts(path.subrange(start, trimmed)) == body_parts(path.subrange(start, end))
            &&& trimmed == start || trimmed == path.len() || path[trimmed] == '/'
        }),
    decreases end - start,
{
    lemma_trimmed_end(path, start, end);
    if end > start {
        lemma_piece_start(path, start, end);
        lemma_last_piece(path, start, end);
        let at = piece_start(path, start, end);
        if !is_component(path.subrange(at, end)) {
            if start < at {
                lemma_trimmed_parts(path, start, at - 1);
            } else {
                lemma_plain_body(Seq::empty());
                assert(path.subrange(start, start) =~= Seq::<char>::empty());
            }
        }
    }
}

/// A parent has the components of its child but the last; only the root and the empty path
/// have no parent.
pub proof fn law_parent_components(path: Seq<char>)
    ensures
        match parent_path(path) {
            Some(up) => components(path).len() > 0 && components(up) == components(
                path,
            ).drop_last(),
            None => components(path).len() == (if has_root(path) {
                1int
            } else {
                0int
            }),
        },
{
    let start = body_start(path);
    let len = path.len() as int;
    lemma_trimmed_parts(path, start, len);
    let end = trimmed_end(path, start, len);
    let head = path.take(start).map_values(|c: char| seq![c]);
    assert(path.skip(start) =~= path.subrange(start, len));
    assert(components(path) =~= head + body_parts(path.subrange(start, end)));
    if end > start {
        lemma_piece_start(path, start, end);
        lemma_last_piece(path, start, end);
        lemma_trimmed_end_proper(path, start, len);
        let at = piece_start(path, start, end);
        let cut = trimmed_end(path, start, at - 1);
        let up = path.take(cut);
        if at > start {
            lemma_trimmed_parts(path, start, at - 1);
        } else {
            lemma_plain_body(Seq::empty());
        }
        assert(up.len() == cut && start <= cut);
        assert(forall|i: int| 0 <= i < cut ==> up[i] == path[i]);
        assert(body_start(up) == start);
        assert(up.take(start) =~= path.take(start));
        assert(up.skip(start) =~= path.subrange(start, cut));
        assert(path.subrange(start, start) =~= Seq::<char>::empty());
        let piece = path.subrange(at, end);
        assert(body_parts(path.subrange(start, end)) == body_parts(
            path.subrange(start, cut),
        ).push(piece));
        assert(components(up) =~= head + body_parts(path.subrange(start, cut)));
        assert(components(path).drop_last() =~= components(up));
    } else {
        lemma_plain_body(Seq::empty());
        assert(path.subrange(start, end) =~= Seq::<char>::empty());
        assert(components(path) =~= head);
        if leading_dot(path) {
            let up = Seq::<char>::empty();
            assert(up.skip(0) =~= up);
            assert(up.take(0).map_values(|c: char| seq![c]) =~= Seq::<Seq<char>>::empty());
            assert(components(up) =~= Seq::<Seq<char>>::empty());
            assert(components(path).drop_last() =~= Seq::<Seq<char>>::empty());
        }
    }
}

/// A parent is a beginning of its child's text.
pub proof fn lemma_parent_is_prefix(path: Seq<char>)
    ensures
        parent_path(path) matches Some(up) ==> up == path.take(up.len() as int),
{
    lemma_parent_shorter(path);
    let start = body_start(path);
    lemma_trimmed_end(path, start, path.len() as int);
    let end = trimmed_end(path, start, path.len() as int);
    if end > start {
        lemma_piece_start(path, start, end);
        let at = piece_start(path, start, end);
        lemma_trimmed_end(path, start, at - 1);
    } else if leading_dot(path) {
        assert(Seq::<char>::empty() =~= path.take(0));
    }
}

/// A name below an absolute path is one more component.
pub proof fn lemma_child_components(base: Seq<char>, name: Seq<char>)
    requires
        has_root(base),
        is_component(name),
        !name.contains('/'),
    ensures
        components(base + seq!['/'] + name) == components(base).push(name),
        has_root(base + seq!['/'] + name),
{
    let child = base + seq!['/'] + name;
    let rest = base.skip(1);
    assert(child[0] == base[0]);
    assert(child.take(1) =~= base.take(1));
    assert(child.skip(1) =~= rest + seq!['/'] + name);
    lemma_split_joined(rest, name);
    lemma_real_joined(text::split_on(rest, '/'), text::split_on(name, '/'));
    lemma_plain_body(name);
    let head = base.take(1).map_values(|c: char| seq![c]);
    assert(body_parts(child.skip(1)) == body_parts(rest) + seq![name]);
    assert(components(base) == head + body_parts(rest));
    assert(components(child) == head + body_parts(child.skip(1)));
    assert(components(child) =~= components(base).push(name));
}

/// Names that a path without `.` and `..` is made of.
spec fn plain_names(parts: Seq<Seq<char>>) -> bool {
    forall|i: int|
        0 <= i < parts.len() ==> is_component(#[trigger] parts[i]) && !parts[i].contains('/')
            && parts[i] != seq!['.', '.']
}

proof fn lemma_rooted_components(parts: Seq<Seq<char>>)
    requires
        plain_names(parts),
    ensures
        has_root(rooted(parts)),
        components(rooted(parts)) == seq![seq!['/']] + parts,
    decreases parts.len(),
{
    let path = rooted(parts);
    lemma_plain_body(Seq::empty());
    if parts.len() == 0 {
        assert(path.skip(1) =~= Seq::<char>::empty());
        assert(path.take(1).map_values(|c: char| seq![c]) =~= seq![seq!['/']]);
        assert(components(path) == path.take(1).map_values(|c: char| seq![c]) + body_parts(
            path.skip(1),
        ));
        assert(components(path) =~= seq![seq!['/']] + parts);
    } else {
        let (init, name) = (parts.drop_last(), parts.last());
        assert(parts[parts.len() - 1] == name);
        assert(plain_names(init)) by {
            assert forall|i: int| 0 <= i < init.len() implies is_component(#[trigger] init[i])
                && !init[i].contains('/') && init[i] != seq!['.', '.'] by {
                assert(init[i] == parts[i]);
            }
        }
        lemma_rooted_components(init);
        if init.len() == 0 {
            let empty = Seq::<char>::empty();
            assert(under(empty, init) =~= empty);
            assert(path =~= seq!['/'] + name);
            lemma_plain_body(name);
            assert(path.skip(1) =~= name);
            assert(path.take(1).map_values(|c: char| seq![c]) =~= seq![seq!['/']]);
            assert(components(path) == path.take(1).map_values(|c: char| seq![c]) + body_parts(
                path.skip(1),
            ));
            assert(components(path) =~= seq![seq!['/']] + parts);
        } else {
            assert(path == rooted(init) + seq!['/'] + name);
            lemma_child_components(rooted(init), name);
            assert(components(path) =~= seq![seq!['/']] + parts);
        }
    }
}

proof fn lemma_real_are_components(pieces: Seq<Seq<char>>)
    ensures
        forall|i: int|
            0 <= i < real_pieces(pieces).len() ==> is_component(#[trigger] real_pieces(pieces)[i]),
    decreases pieces.len(),
{
    if pieces.len() > 0 {
        let init = pieces.drop_last();
        lemma_real_are_components(init);
        let (kept, all) = (real_pieces(init), real_pieces(pieces));
        assert forall|i: int| 0 <= i < all.len() implies is_component(#[trigger] all[i]) by {
            if i < kept.len() {
                assert(all[i] == kept[i]);
            }
        }
    }
}

/// A component is the root, a leading `.`, or a name.
spec fn component_kinds(parts: Seq<Seq<char>>) -> bool {
    forall|i: int|
        0 <= i < parts.len() ==> (#[trigger] parts[i] == seq!['/'] || parts[i] == seq!['.'] || (
        is_component(parts[i]) && !parts[i].contains('/')))
}

proof fn lemma_component_kinds(path: Seq<char>)
    ensures
        component_kinds(components(path)),
{
    let start = body_start(path);
    let head = path.take(start).map_values(|c: char| seq![c]);
    let pieces = text::split_on(path.skip(start), '/');
    lemma_pieces_plain(path.skip(start), '/');
    lemma_real_pieces(pieces, '/');
    lemma_real_are_components(pieces);
    let all = components(path);
    assert forall|i: int| 0 <= i < all.len() implies (#[trigger] all[i] == seq!['/'] || all[i]
        == seq!['.'] || (is_component(all[i]) && !all[i].contains('/'))) by {
        if i < start {
            assert(all[i] == head[i]);
            assert(head[0] == seq![path[0]]);
        } else {
            assert(all[i] == real_pieces(pieces)[i - start]);
        }
    }
}

proof fn lemma_resolved_plain(parts: Seq<Seq<char>>)
    requires
        component_kinds(parts),
    ensures
        plain_names(resolved(parts)),
    decreases parts.len(),
{
    if parts.len() > 0 {
        let (init, last) = (parts.drop_last(), parts.last());
        assert(parts[parts.len() - 1] == last);
        assert(component_kinds(init)) by {
            assert forall|i: int| 0 <= i < init.len() implies (#[trigger] init[i] == seq!['/']
                || init[i] == seq!['.'] || (is_component(init[i]) && !init[i].contains('/'))) by {
                assert(init[i] == parts[i]);
            }
        }
        lemma_resolved_plain(init);
        let (before, all) = (resolved(init), resolved(parts));
        assert forall|i: int| 0 <= i < all.len() implies is_component(#[trigger] all[i])
            && !all[i].contains('/') && all[i] != seq!['.', '.'] by {
            if i < before.len() {
                assert(all[i] == before[i]);
            }
        }
    }
}

proof fn lemma_plain_resolves_to_itself(parts: Seq<Seq<char>>)
    requires
        plain_names(parts),
    ensures
        resolved(seq![seq!['/']] + parts) == parts,
    decreases parts.len(),
{
    let all = seq![seq!['/']] + parts;
    if parts.len() == 0 {
        assert(all.drop_last() =~= Seq::<Seq<char>>::empty());
        assert(all.last() == seq!['/']);
        assert(resolved(all.drop_last()) =~= Seq::<Seq<char>>::empty());
        assert(seq!['/'] != seq!['.', '.']) by {
            assert(seq!['/'].len() == 1);
        }
        assert(parts =~= Seq::<Seq<char>>::empty());
    } else {
        let init = parts.drop_last();
        assert(parts[parts.len() - 1] == parts.last());
        assert(plain_names(init)) by {
            assert forall|i: int| 0 <= i < init.len() implies is_component(#[trigger] init[i])
                && !init[i].contains('/') && init[i] != seq!['.', '.'] by {
                assert(init[i] == parts[i]);
            }
        }
        lemma_plain_resolves_to_itself(init);
        assert(all.drop_last() =~= seq![seq!['/']] + init);
        assert(all.last() == parts.last());
        assert(seq!['/'][0] == '/');
        assert(seq!['/'].contains('/'));
        assert(parts =~= init.push(parts.last()));
    }
}

/// A path without `.` and `..` begins at the root, is its own such path, and consists of the
/// root and the names that are left.
pub proof fn law_lexical_paths_are_normal(path: Seq<char>)
    ensures
        has_root(lexical(path)),
        lexical(lexical(path)) == lexical(path),
        components(lexical(path)) == seq![seq!['/']] + resolved(components(path)),
{
    let names = resolved(components(path));
    lemma_component_kinds(path);
    lemma_resolved_plain(components(path));
    lemma_rooted_components(names);
    lemma_plain_resolves_to_itself(names);
}

proof fn lemma_under_prefix(base: Seq<char>, parts: Seq<Seq<char>>, count: int)
    requires
        0 <= count <= parts.len(),
    ensures
        under(base, parts.take(count)).len() <= under(base, parts).len(),
        under(base, parts.take(count)) == under(base, parts).take(
            under(base, parts.take(count)).len() as int,
        ),
    decreases parts.len(),
{
    if count == parts.len() {
        assert(parts.take(count) =~= parts);
        assert(under(base, parts) =~= under(base, parts).take(under(base, parts).len() as int));
    } else {
        let init = parts.drop_last();
        lemma_under_prefix(base, init, count);
        assert(init.take(count) =~= parts.take(count));
        let (short, mid, long) = (
            under(base, parts.take(count)),
            under(base, init),
            under(base, parts),
        );
        assert(mid =~= long.take(mid.len() as int));
        assert(short =~= long.take(short.len() as int));
    }
}

/// Among paths without `.` and `..`, the text of one above another begins the other's.
pub proof fn lemma_normal_ancestor_begins(a: Seq<char>, b: Seq<char>)
    requires
        lexical(a) == a,
        lexical(b) == b,
        is_ancestor(a, b),
    ensures
        a.len() <= b.len(),
        a == b.take(a.len() as int),
{
    law_lexical_paths_are_normal(a);
    law_lexical_paths_are_normal(b);
    let (x, y) = (resolved(components(a)), resolved(components(b)));
    let (all, base) = (components(b), components(a));
    assert(all.subrange(0, base.len() as int) == base);
    assert(x =~= y.take(x.len() as int)) by {
        assert forall|i: int| 0 <= i < x.len() implies x[i] == y[i] by {
            assert(base[i + 1] == x[i]);
            assert(all[i + 1] == y[i]);
            assert(all.subrange(0, base.len() as int)[i + 1] == all[i + 1]);
        }
    }
    if x.len() == 0 {
        assert(a =~= b.take(1));
    } else {
        lemma_under_prefix(Seq::empty(), y, x.len() as int);
    }
}

/// A name joined to an absolute path is one more component.
pub proof fn lemma_join_components(base: Seq<char>, name: Seq<char>)
    requires
        has_root(base),
        is_component(name),
        !name.contains('/'),
    ensures
        components(path_join(base, name)) == components(base).push(name),
        has_root(path_join(base, name)),
{
    if has_root(name) {
        assert(name.contains('/'));
    }
    if text::ends_in(base, '/') {
        let rest = base.skip(1);
        let joined = base + name;
        let head = base.take(1).map_values(|c: char| seq![c]);
        assert(joined.take(1) =~= base.take(1));
        assert(joined[0] == base[0]);
        assert(joined.skip(1) =~= rest + name);
        lemma_plain_body(name);
        lemma_plain_body(Seq::empty());
        if rest.len() == 0 {
            assert(rest + name =~= name);
            assert(rest =~= Seq::<char>::empty());
            assert(components(base) =~= head);
            assert(components(joined) =~= components(base).push(name));
        } else {
            let inner = rest.drop_last();
            assert(rest.last() == base.last());
            assert(rest =~= inner + seq!['/'] + Seq::<char>::empty());
            assert(rest + name =~= inner + seq!['/'] + name);
            lemma_split_joined(inner, Seq::empty());
            lemma_split_joined(inner, name);
            lemma_real_joined(text::split_on(inner, '/'), text::split_on(Seq::empty(), '/'));
            lemma_real_joined(text::split_on(inner, '/'), text::split_on(name, '/'));
            assert(body_parts(rest) =~= body_parts(inner));
            assert(body_parts(rest + name) =~= body_parts(inner).push(name));
            assert(components(base) == head + body_parts(rest));
            assert(components(joined) == head + body_parts(rest + name));
            assert(components(joined) =~= components(base).push(name));
        }
    } else {
        lemma_child_components(base, name);
    }
}

/// Below the root a path without `.` and `..` is made of names.
pub proof fn lemma_lexical_names(path: Seq<char>)
    ensures
        forall|i: int|
            1 <= i < components(lexical(path)).len() ==> is_component(
                #[trigger] components(lexical(path))[i],
            ) && !components(lexical(path))[i].contains('/'),
{
    let names = resolved(components(path));
    lemma_component_kinds(path);
    lemma_resolved_plain(components(path));
    law_lexical_paths_are_normal(path);
    assert forall|i: int| 1 <= i < components(lexical(path)).len() implies is_component(
        #[trigger] components(lexical(path))[i],
    ) && !components(lexical(path))[i].contains('/') by {
        assert(components(lexical(path))[i] == names[i - 1]);
    }
}

} // verus!
