//! Looking at many entries: those of one directory after each other, so that the directory is
//! opened once, and it is checked before the next one that it was still the same.
use crate::key_order;
use crate::key_order::{place_of, sorted_places};
use crate::lexicographic;
use crate::natural;
use crate::paths;
use crate::paths::{component_texts, parent, same_path};
use crate::text;
use crate::text::same_text;
use core::cmp::Ordering;
use vstd::prelude::*;

verus! {

/// What a component sorts by: the root first, then names that go nowhere or up, then others by
/// their bytes.
pub open spec fn component_key(component: Seq<char>) -> Seq<int> {
    if component == "/"@ {
        seq![2]
    } else if component == "."@ {
        seq![3]
    } else if component == ".."@ {
        seq![4]
    } else {
        seq![5int] + natural::byte_keys(text::bytes_of(component)).map_values(|b: int| b + 1)
            + seq![0int]
    }
}

/// What components sort by, one after the other.
pub open spec fn components_key(components: Seq<Seq<char>>) -> Seq<int>
    decreases components.len(),
{
    if components.len() == 0 {
        Seq::empty()
    } else {
        components_key(components.drop_last()) + component_key(components.last())
    }
}

/// What a path sorts by: its directory, component by component, then its own bytes.
pub open spec fn sibling_key(path: Seq<char>) -> Seq<int> {
    (match paths::parent_path(path) {
        None => seq![0int],
        Some(up) => seq![1int] + components_key(paths::components(up)) + seq![1int],
    }) + natural::byte_keys(text::bytes_of(path))
}

fn append_component(key: &mut Vec<u16>, component: &str)
    ensures
        key_order::numbers(final(key)@) == key_order::numbers(old(key)@) + component_key(component@),
{
    let ghost before = key@;
    if same_text(component, "/") {
        key.push(2);
        assert(key_order::numbers(key@) =~= key_order::numbers(before) + component_key(component@));
        return;
    }
    if same_text(component, ".") {
        key.push(3);
        assert(key_order::numbers(key@) =~= key_order::numbers(before) + component_key(component@));
        return;
    }
    if same_text(component, "..") {
        key.push(4);
        assert(key_order::numbers(key@) =~= key_order::numbers(before) + component_key(component@));
        return;
    }
    key.push(5);
    let bytes = component.as_bytes();
    let ghost shifted = natural::byte_keys(bytes@).map_values(|b: int| b + 1);
    let ghost start = key_order::numbers(before) + seq![5int];
    assert(key_order::numbers(key@) =~= start + shifted.take(0));
    let mut next: usize = 0;
    while next < bytes.len()
        invariant
            next <= bytes@.len(),
            shifted == natural::byte_keys(bytes@).map_values(|b: int| b + 1),
            key_order::numbers(key@) == start + shifted.take(next as int),
        decreases bytes@.len() - next,
    {
        let ghost so_far = key_order::numbers(key@);
        key.push(bytes[next] as u16 + 1);
        assert(key_order::numbers(key@) =~= so_far.push(shifted[next as int]));
        assert(start + shifted.take(next + 1) =~= (start + shifted.take(next as int)).push(
            shifted[next as int],
        ));
        next = next + 1;
    }
    assert(shifted.take(next as int) =~= shifted);
    let ghost so_far = key_order::numbers(key@);
    key.push(0);
    assert(key_order::numbers(key@) =~= so_far.push(0));
    assert(bytes@ == text::bytes_of(component@));
    assert(start + shifted + seq![0int] =~= key_order::numbers(before) + (seq![5int] + shifted + seq![0int]));
    assert(key_order::numbers(key@) =~= start + shifted + seq![0int]);
}

fn append_path(key: &mut Vec<u16>, path: &str)
    ensures
        key_order::numbers(final(key)@) == key_order::numbers(old(key)@) + natural::byte_keys(text::bytes_of(path@)),
{
    let ghost start = key_order::numbers(key@);
    let bytes = path.as_bytes();
    let ghost all = natural::byte_keys(bytes@);
    assert(start + all.take(0) =~= start);
    let mut next: usize = 0;
    while next < bytes.len()
        invariant
            next <= bytes@.len(),
            all == natural::byte_keys(bytes@),
            key_order::numbers(key@) == start + all.take(next as int),
        decreases bytes@.len() - next,
    {
        let ghost so_far = key_order::numbers(key@);
        key.push(bytes[next] as u16);
        assert(key_order::numbers(key@) =~= so_far.push(all[next as int]));
        assert(start + all.take(next + 1) =~= (start + all.take(next as int)).push(
            all[next as int],
        ));
        next = next + 1;
    }
    assert(all.take(next as int) =~= all);
}

fn key_of(path: &str) -> (key: Vec<u16>)
    ensures
        key_order::numbers(key@) == sibling_key(path@),
{
    let mut key: Vec<u16> = Vec::new();
    match parent(path) {
        None => {
            key.push(0);
            assert(key_order::numbers(key@) =~= seq![0int]);
        },
        Some(up) => {
            key.push(1);
            assert(key_order::numbers(key@) =~= seq![1int]);
            let parts = component_texts(up.as_str());
            let ghost all = paths::components(up@);
            let mut next: usize = 0;
            assert(key_order::numbers(key@) =~= seq![1int] + components_key(all.take(0)));
            while next < parts.len()
                invariant
                    next <= parts@.len(),
                    all == text::texts(parts@),
                    key_order::numbers(key@) == seq![1int] + components_key(all.take(next as int)),
                decreases parts@.len() - next,
            {
                let ghost part = all.take(next + 1);
                assert(part.drop_last() =~= all.take(next as int));
                assert(part.last() == parts@[next as int]@);
                append_component(&mut key, parts[next].as_str());
                next = next + 1;
                assert(key_order::numbers(key@) =~= seq![1int] + components_key(part));
            }
            assert(all.take(next as int) =~= all);
            let ghost so_far = key_order::numbers(key@);
            key.push(1);
            assert(key_order::numbers(key@) =~= so_far + seq![1int]);
        },
    }
    append_path(&mut key, path);
    key
}

/// Paths in the order of some places.
pub open spec fn at_places(list: Seq<Seq<char>>, places: Seq<u32>) -> Seq<Seq<char>> {
    places.map_values(|place: u32| list[place + 0])
}

/// A path does not sort behind another.
pub open spec fn not_behind(a: Seq<char>, b: Seq<char>) -> bool {
    lexicographic::lexicographic(sibling_key(a), sibling_key(b)) != Ordering::Greater
}

fn keys_of(list: &Vec<String>) -> (keys: Vec<Vec<u16>>)
    ensures
        keys@.len() == list@.len(),
        forall|i: int| 0 <= i < keys@.len() ==> key_order::numbers((#[trigger] keys@[i])@) == sibling_key(
            list@[i]@,
        ),
{
    let mut keys: Vec<Vec<u16>> = Vec::new();
    let mut next: usize = 0;
    while next < list.len()
        invariant
            next <= list@.len(),
            keys@.len() == next,
            forall|i: int| 0 <= i < keys@.len() ==> key_order::numbers((#[trigger] keys@[i])@) == sibling_key(
                list@[i]@,
            ),
        decreases list@.len() - next,
    {
        keys.push(key_of(list[next].as_str()));
        next = next + 1;
    }
    keys
}

fn count_of(list: &Vec<String>) -> (count: u32)
    requires
        list@.len() <= u32::MAX,
    ensures
        count == list@.len(),
{
    list.len() as u32
}

/// Paths in the order in which they are looked at: those of one directory after each other.
pub fn sibling_order(list: Vec<String>) -> (sorted: Vec<String>)
    requires
        list@.len() <= u32::MAX,
    ensures
        exists|places: Seq<u32>| #[trigger]
            key_order::every_place_once(places, list@.len()) && text::texts(sorted@) == at_places(
                text::texts(list@),
                places,
            ),
        forall|i: int, j: int|
            0 <= i < j < sorted@.len() ==> not_behind(
                (#[trigger] sorted@[i])@,
                (#[trigger] sorted@[j])@,
            ),
{
    let keys = keys_of(&list);
    let places = sorted_places(&keys, count_of(&list));
    let ghost all = text::texts(list@);
    let mut sorted: Vec<String> = Vec::new();
    let mut next: usize = 0;
    while next < places.len()
        invariant
            next <= places@.len(),
            key_order::every_place_once(places@, list@.len()),
            all == text::texts(list@),
            sorted@.len() == next,
            forall|i: int|
                0 <= i < next ==> (#[trigger] sorted@[i])@ == all[places@[i] + 0],
        decreases places@.len() - next,
    {
        sorted.push(list[place_of(places[next])].clone());
        next = next + 1;
    }
    proof {
        assert(text::texts(sorted@) =~= at_places(all, places@));
        assert forall|i: int, j: int| 0 <= i < j < sorted@.len() implies not_behind(
            (#[trigger] sorted@[i])@,
            (#[trigger] sorted@[j])@,
        ) by {
            let (p, q) = (places@[i], places@[j]);
            assert(lexicographic::lexicographic(key_order::key_at(keys@, p), key_order::key_at(keys@, q))
                != Ordering::Greater);
            assert(key_order::numbers(keys@[p + 0]@) == sibling_key(list@[p + 0]@));
            assert(key_order::numbers(keys@[q + 0]@) == sibling_key(list@[q + 0]@));
        }
    }
    sorted
}

/// What looking at many entries is to do next.
#[derive(Clone, Copy, Debug, PartialEq, Eq, Structural)]
pub enum BatchStep {
    /// Stop: nothing of the batch counts.
    Cancelled,
    /// Look at the path with this place. Before that, if so, check that the directory looked
    /// into last is still the same, and open that of the path.
    Look { place: usize, another_directory: bool },
    /// All were looked at.
    Finished,
}

/// Two paths are in the same directory.
pub open spec fn same_directory(a: Option<Seq<char>>, b: Option<Seq<char>>) -> bool {
    match (a, b) {
        (None, None) => true,
        (Some(x), Some(y)) => paths::components(x) == paths::components(y),
        _ => false,
    }
}

/// The directory that the paths before one are in, as far as any was opened.
pub open spec fn directory_before(list: Seq<Seq<char>>, place: int) -> Option<Seq<char>> {
    if place <= 0 {
        None
    } else {
        paths::parent_path(list[place - 1])
    }
}

/// What to do next with a sorted batch of which the first `place` paths were looked at.
pub fn next_in_batch(list: &Vec<String>, place: usize, cancelled: bool) -> (step: BatchStep)
    requires
        place <= list@.len(),
    ensures
        step == (if place == list@.len() {
            BatchStep::Finished
        } else if cancelled {
            BatchStep::Cancelled
        } else {
            BatchStep::Look {
                place,
                another_directory: !same_directory(
                    directory_before(text::texts(list@), place as int),
                    paths::parent_path(list@[place as int]@),
                ),
            }
        }),
{
    if place == list.len() {
        return BatchStep::Finished;
    }
    if cancelled {
        return BatchStep::Cancelled;
    }
    let before = if place == 0 {
        None
    } else {
        parent(list[place - 1].as_str())
    };
    let same = match (before, parent(list[place].as_str())) {
        (None, None) => true,
        (Some(a), Some(b)) => same_path(a.as_str(), b.as_str()),
        _ => false,
    };
    BatchStep::Look { place, another_directory: !same }
}

/// Whether a batch that was looked at counts: the last directory was still the same, and so were
/// the mounts. Nothing of a batch survives a change of the mounts.
pub fn finish_batch(last_directory: Result<(), String>, mounts_current: Result<bool, String>) -> (result:
    Result<(), String>)
    ensures
        match (last_directory, mounts_current) {
            (Err(reason), _) => result == Err::<(), String>(reason),
            (Ok(_), Err(reason)) => result == Err::<(), String>(reason),
            (Ok(_), Ok(true)) => result is Ok,
            (Ok(_), Ok(false)) => result matches Err(reason) && reason@
                == "Mount identity changed during metadata verification"@,
        },
{
    match last_directory {
        Err(reason) => Err(reason),
        Ok(_) => match mounts_current {
            Err(reason) => Err(reason),
            Ok(true) => Ok(()),
            Ok(false) => Err("Mount identity changed during metadata verification".to_owned()),
        },
    }
}

/// What stands between two keys with a common beginning begins so too.
proof fn lemma_between(head: Seq<int>, a: Seq<int>, key: Seq<int>, c: Seq<int>)
    requires
        lexicographic::lexicographic(head + a, key) != Ordering::Greater,
        lexicographic::lexicographic(key, head + c) != Ordering::Greater,
    ensures
        head.is_prefix_of(key),
    decreases head.len(),
{
    if head.len() > 0 {
        let rest = head.drop_first();
        assert((head + a).drop_first() =~= rest + a);
        assert((head + c).drop_first() =~= rest + c);
        assert((head + a)[0] == head[0] && (head + c)[0] == head[0]);
        lemma_between(rest, a, key.drop_first(), c);
        assert forall|i: int| 0 <= i < head.len() implies head[i] == key[i] by {
            if i > 0 {
                assert(rest[i - 1] == key.drop_first()[i - 1]);
            }
        }
        assert(head =~= key.subrange(0, head.len() - 0));
    }
}

/// Numbers up to the first zero are the same in a text and its beginning.
proof fn lemma_up_to_zero(x: Seq<int>, y: Seq<int>, more: Seq<int>, rest: Seq<int>)
    requires
        forall|i: int| 0 <= i < x.len() ==> #[trigger] x[i] > 0,
        forall|i: int| 0 <= i < y.len() ==> #[trigger] y[i] > 0,
        (x + seq![0int] + more).is_prefix_of(y + seq![0int] + rest),
    ensures
        x == y,
{
    let (a, b) = (x + seq![0int] + more, y + seq![0int] + rest);
    assert forall|i: int| 0 <= i < a.len() implies a[i] == b[i] by {
        assert(a[i] == b.subrange(0, a.len() as int)[i]);
    }
    if x.len() < y.len() {
        assert(a[x.len() as int] == 0);
        assert(b[x.len() as int] == y[x.len() as int]);
    } else if y.len() < x.len() {
        assert(b[y.len() as int] == 0);
        assert(a[y.len() as int] == x[y.len() as int]);
    } else {
        assert forall|i: int| 0 <= i < x.len() implies x[i] == y[i] by {
            assert(a[i] == x[i] && b[i] == y[i]);
        }
        assert(x =~= y);
    }
}

/// The key of a component shows where it ends.
proof fn lemma_component_decides(a: Seq<char>, b: Seq<char>, more: Seq<int>, rest: Seq<int>)
    requires
        (component_key(a) + more).is_prefix_of(component_key(b) + rest),
    ensures
        a == b,
{
    let (x, y) = (component_key(a) + more, component_key(b) + rest);
    assert(x[0] == y.subrange(0, x.len() as int)[0]);
    assert(x[0] == component_key(a)[0] && y[0] == component_key(b)[0]);
    let plain = a != "/"@ && a != "."@ && a != ".."@;
    if plain {
        let (p, q) = (natural::byte_keys(text::bytes_of(a)), natural::byte_keys(text::bytes_of(b)));
        let (up, vq) = (p.map_values(|n: int| n + 1), q.map_values(|n: int| n + 1));
        assert(x =~= seq![5int] + (up + seq![0int] + more));
        assert(y =~= seq![5int] + (vq + seq![0int] + rest));
        let (tail, end) = (up + seq![0int] + more, vq + seq![0int] + rest);
        assert forall|i: int| 0 <= i < tail.len() implies tail[i] == end[i] by {
            assert(x[i + 1] == y.subrange(0, x.len() as int)[i + 1]);
        }
        assert(tail =~= end.subrange(0, tail.len() as int));
        lemma_up_to_zero(up, vq, more, rest);
        let (s, t) = (text::bytes_of(a), text::bytes_of(b));
        assert forall|i: int| 0 <= i < s.len() implies s[i] == t[i] by {
            assert(up[i] == vq[i]);
            assert(up[i] == p[i] + 1 && vq[i] == q[i] + 1);
        }
        assert(s.len() == up.len() && t.len() == vq.len());
        assert(s =~= t);
        text::lemma_same_bytes(a, b);
    }
}

proof fn lemma_first_component(components: Seq<Seq<char>>)
    requires
        components.len() > 0,
    ensures
        components_key(components) == component_key(components[0]) + components_key(
            components.drop_first(),
        ),
    decreases components.len(),
{
    if components.len() == 1 {
        assert(components.drop_last() =~= components.drop_first());
        assert(components_key(components.drop_last()) =~= Seq::empty());
        assert(components_key(components) =~= component_key(components[0]) + components_key(
            components.drop_first(),
        ));
    } else {
        let before = components.drop_last();
        lemma_first_component(before);
        assert(before.drop_first() =~= components.drop_first().drop_last());
        assert(before[0] == components[0]);
        assert(components_key(components) =~= component_key(components[0]) + components_key(
            components.drop_first(),
        ));
    }
}

/// The key of a directory shows where it ends.
proof fn lemma_directory_decides(a: Seq<Seq<char>>, b: Seq<Seq<char>>, more: Seq<int>, rest: Seq<int>)
    requires
        (components_key(a) + (seq![1int] + more)).is_prefix_of(
            components_key(b) + (seq![1int] + rest),
        ),
    ensures
        a == b,
    decreases a.len(),
{
    let (x, y) = (components_key(a) + (seq![1int] + more), components_key(b) + (seq![1int] + rest));
    assert(x[0] == y.subrange(0, x.len() as int)[0]);
    if a.len() > 0 {
        lemma_first_component(a);
        assert(x[0] == component_key(a[0])[0]);
    } else {
        assert(x[0] == 1);
    }
    if b.len() > 0 {
        lemma_first_component(b);
        assert(y[0] == component_key(b[0])[0]);
    } else {
        assert(y[0] == 1);
    }
    if a.len() > 0 && b.len() > 0 {
        let (p, q) = (components_key(a.drop_first()), components_key(b.drop_first()));
        let (u, v) = (p + (seq![1int] + more), q + (seq![1int] + rest));
        assert(x =~= component_key(a[0]) + u);
        assert(y =~= component_key(b[0]) + v);
        lemma_component_decides(a[0], b[0], u, v);
        let head = component_key(a[0]).len();
        assert forall|i: int| 0 <= i < u.len() implies u[i] == v[i] by {
            assert(x[head + i] == y.subrange(0, x.len() as int)[head + i]);
        }
        assert(u =~= v.subrange(0, u.len() as int));
        lemma_directory_decides(a.drop_first(), b.drop_first(), more, rest);
        assert(a =~= seq![a[0]] + a.drop_first());
        assert(b =~= seq![b[0]] + b.drop_first());
    } else {
        assert(a.len() == 0 && b.len() == 0);
        assert(a =~= b);
    }
}

/// Paths of one directory stand together: what sorts between two of them is of that directory.
pub proof fn law_siblings_stand_together(a: Seq<char>, b: Seq<char>, c: Seq<char>)
    requires
        not_behind(a, b),
        not_behind(b, c),
        same_directory(paths::parent_path(a), paths::parent_path(c)),
    ensures
        same_directory(paths::parent_path(a), paths::parent_path(b)),
{
    let own = natural::byte_keys(text::bytes_of(a));
    let last = natural::byte_keys(text::bytes_of(c));
    let key = sibling_key(b);
    match paths::parent_path(a) {
        None => {
            lemma_between(seq![0int], own, key, last);
            assert(seq![0int][0] == key.subrange(0, 1)[0]);
            assert(key[0] == 0);
        },
        Some(up) => {
            let parts = components_key(paths::components(up));
            let head = seq![1int] + parts + seq![1int];
            lemma_between(head, own, key, last);
            assert(head[0] == key.subrange(0, head.len() - 0)[0]);
            assert(key[0] == 1);
            let over = paths::parent_path(b)->0;
            let other = components_key(paths::components(over));
            let rest = natural::byte_keys(text::bytes_of(b));
            let (u, v) = (parts + (seq![1int] + Seq::empty()), other + (seq![1int] + rest));
            assert(head =~= seq![1int] + u);
            assert(key =~= seq![1int] + v);
            assert forall|i: int| 0 <= i < u.len() implies u[i] == v[i] by {
                assert(head[i + 1] == key.subrange(0, head.len() - 0)[i + 1]);
            }
            assert(u =~= v.subrange(0, u.len() - 0));
            lemma_directory_decides(
                paths::components(up),
                paths::components(over),
                Seq::empty(),
                rest,
            );
        },
    }
}

} // verus!
